//! Text: numbers as digits, words, lines and pieces.
//!
//! Everything here works on the characters of a string, not on its bytes.

use vstd::prelude::*;
use vstd::string::*;

verus! {

/// The texts of a list of strings.
pub open spec fn texts(list: Seq<String>) -> Seq<Seq<char>> {
    list.map_values(|s: String| s@)
}

/// The characters of `s`.
pub fn chars(s: &str) -> (res: Vec<char>)
    ensures
        res@ == s@,
{
    let mut res: Vec<char> = Vec::new();
    for c in it: s.chars()
        invariant
            res@ == s@.take(it.index() as int),
            it.seq() == s@,
    {
        res.push(c);
        assert(res@ =~= s@.take(it.index() + 1));
    }
    assert(s@.take(s@.len() as int) =~= s@);
    res
}

/// Two texts are equal.
pub fn same(a: &str, b: &str) -> (res: bool)
    ensures
        res == (a@ == b@),
{
    a.to_owned() == b.to_owned()
}

/// A copy of a list of strings.
pub fn copy_all(list: &Vec<String>) -> (res: Vec<String>)
    ensures
        res@ == list@,
{
    let mut res: Vec<String> = Vec::new();
    let mut i: usize = 0;
    while i < list.len()
        invariant
            i <= list@.len(),
            res@ == list@.take(i as int),
        decreases list@.len() - i,
    {
        res.push(list[i].clone());
        i = i + 1;
        assert(res@ =~= list@.take(i as int));
    }
    assert(list@.take(list@.len() as int) =~= list@);
    res
}

/// `a` followed by `b`.
pub fn joined(a: &str, b: &str) -> (res: String)
    ensures
        res@ == a@ + b@,
{
    let mut res = a.to_owned();
    res.append(b);
    res
}

/// `list` holds `item`.
pub fn contains(list: &Vec<String>, item: &str) -> (res: bool)
    ensures
        res == texts(list@).contains(item@),
{
    let mut i: usize = 0;
    while i < list.len()
        invariant
            i <= list@.len(),
            forall|j: int| 0 <= j < i ==> #[trigger] texts(list@)[j] != item@,
        decreases list@.len() - i,
    {
        if same(list[i].as_str(), item) {
            assert(texts(list@)[i as int] == item@);
            return true;
        }
        i = i + 1;
    }
    false
}

// ---- numbers ----

/// The digit of value `d`, in bases up to sixteen.
pub open spec fn digit(d: nat) -> char {
    "0123456789abcdef"@[d as int]
}

/// `n` in the given base.
pub open spec fn in_base(n: nat, base: nat) -> Seq<char>
    decreases n,
{
    if base < 2 || n < base {
        seq![digit(n)]
    } else {
        proof {
            assert(n / base < n) by (nonlinear_arith)
                requires
                    n >= base,
                    base >= 2,
            ;
        }
        in_base(n / base, base).push(digit(n % base))
    }
}

/// `n` in decimal.
pub open spec fn decimal(n: nat) -> Seq<char> {
    in_base(n, 10)
}

/// Writes `n` in the given base.
pub fn write_in_base(n: u128, base: u128) -> (res: String)
    requires
        2 <= base <= 16,
    ensures
        res@ == in_base(n as nat, base as nat),
    decreases n,
{
    proof {
        reveal_strlit("0123456789abcdef");
    }
    if n < base {
        let d: usize = n as usize;
        let text = "0123456789abcdef".substring_char(d, d + 1);
        assert(text@ =~= seq![digit(n as nat)]);
        text.to_owned()
    } else {
        let mut res = write_in_base(n / base, base);
        let d: usize = (n % base) as usize;
        let text = "0123456789abcdef".substring_char(d, d + 1);
        assert(text@ =~= seq![digit((n % base) as nat)]);
        let ghost before = res@;
        res.append(text);
        assert(res@ =~= before.push(digit((n % base) as nat)));
        res
    }
}

/// Writes `n` in decimal.
pub fn write_decimal(n: u64) -> (res: String)
    ensures
        res@ == decimal(n as nat),
{
    write_in_base(n as u128, 10)
}

/// A digit tells its value.
pub proof fn lemma_digit(d: nat)
    requires
        d < 16,
    ensures
        digit(d) == (if d < 10 {
            ('0' as nat + d) as char
        } else {
            ('a' as nat + d - 10) as char
        }),
        '0' <= digit(d) <= '9' || 'a' <= digit(d) <= 'f',
        forall|e: nat| e < 16 && #[trigger] digit(e) == digit(d) ==> e == d,
{
    reveal_strlit("0123456789abcdef");
}

/// A number is written with at least one digit and with nothing but digits.
pub proof fn lemma_in_base_digits(n: nat, base: nat)
    requires
        2 <= base <= 16,
    ensures
        in_base(n, base).len() > 0,
        forall|i: int|
            0 <= i < in_base(n, base).len() ==> '0' <= #[trigger] in_base(n, base)[i] <= '9' || 'a'
                <= in_base(n, base)[i] <= 'f',
    decreases n,
{
    if n < base {
        lemma_digit(n);
    } else {
        assert(n / base < n) by (nonlinear_arith)
            requires
                n >= base,
                base >= 2,
        ;
        vstd::arithmetic::div_mod::lemma_mod_bound(n as int, base as int);
        lemma_in_base_digits(n / base, base);
        lemma_digit(n % base);
        let before = in_base(n / base, base);
        assert forall|i: int| 0 <= i < in_base(n, base).len() implies '0' <= #[trigger] in_base(
            n,
            base,
        )[i] <= '9' || 'a' <= in_base(n, base)[i] <= 'f' by {
            if i < before.len() {
                assert(in_base(n, base)[i] == before[i]);
            }
        }
    }
}

/// Different numbers are written differently.
pub proof fn lemma_in_base_injective(a: nat, b: nat, base: nat)
    requires
        2 <= base <= 16,
        in_base(a, base) == in_base(b, base),
    ensures
        a == b,
    decreases a,
{
    let x = in_base(a, base);
    lemma_in_base_digits(a / base, base);
    lemma_in_base_digits(b / base, base);
    vstd::arithmetic::div_mod::lemma_mod_bound(a as int, base as int);
    vstd::arithmetic::div_mod::lemma_mod_bound(b as int, base as int);
    if a < base {
        assert(x.len() == 1);
        assert(b < base);
        lemma_digit(a);
        assert(x[0] == digit(b));
    } else {
        assert(a / base < a) by (nonlinear_arith)
            requires
                a >= base,
                base >= 2,
        ;
        assert(x.len() > 1);
        assert(b >= base);
        assert(x.drop_last() =~= in_base(a / base, base));
        assert(in_base(b, base).drop_last() =~= in_base(b / base, base));
        lemma_in_base_injective(a / base, b / base, base);
        lemma_digit(a % base);
        assert(x.last() == digit(a % base));
        assert(in_base(b, base).last() == digit(b % base));
        vstd::arithmetic::div_mod::lemma_fundamental_div_mod(a as int, base as int);
        vstd::arithmetic::div_mod::lemma_fundamental_div_mod(b as int, base as int);
    }
}

pub open spec fn is_digit(c: char) -> bool {
    '0' <= c <= '9'
}

/// The number that decimal digits spell.
pub open spec fn value_of(digits: Seq<char>) -> nat
    decreases digits.len(),
{
    if digits.len() == 0 {
        0
    } else {
        value_of(digits.drop_last()) * 10 + (digits.last() as nat - '0' as nat) as nat
    }
}

/// What follows an optional plus sign.
pub open spec fn unsigned(s: Seq<char>) -> Seq<char> {
    if s.len() > 0 && s[0] == '+' {
        s.skip(1)
    } else {
        s
    }
}

/// The number that `s` spells: an optional plus sign and decimal digits, nothing above `max`.
pub open spec fn number(s: Seq<char>, max: nat) -> Option<nat> {
    let digits = unsigned(s);
    if digits.len() > 0 && (forall|i: int| 0 <= i < digits.len() ==> is_digit(#[trigger] digits[i]))
        && value_of(digits) <= max {
        Some(value_of(digits))
    } else {
        None
    }
}

/// Reads a decimal number that is at most `max`.
pub fn read_number(s: &str, max: u64) -> (res: Option<u64>)
    ensures
        match res {
            Some(n) => number(s@, max as nat) == Some(n as nat),
            None => number(s@, max as nat) is None,
        },
{
    let all = chars(s);
    let start: usize = if all.len() > 0 && all[0] == '+' {
        1
    } else {
        0
    };
    let ghost digits = unsigned(s@);
    assert(digits =~= s@.skip(start as int));
    if start == all.len() {
        return None;
    }
    let mut value: u128 = 0;
    let mut over: bool = false;
    let mut i: usize = start;
    while i < all.len()
        invariant
            all@ == s@,
            start <= i <= all@.len(),
            digits == s@.skip(start as int),
            digits == unsigned(s@),
            forall|j: int| 0 <= j < i - start ==> is_digit(#[trigger] digits[j]),
            value <= u64::MAX,
            over ==> value_of(digits.take(i - start)) > max,
            !over ==> value == value_of(digits.take(i - start)) && value <= max,
        decreases all@.len() - i,
    {
        let c = all[i];
        assert(digits[i - start] == c);
        if c < '0' || c > '9' {
            assert(!is_digit(digits[i - start]));
            return None;
        }
        let ghost longer = digits.take(i + 1 - start);
        assert(longer.drop_last() =~= digits.take(i - start));
        assert(longer.last() == c);
        if !over {
            let next: u128 = value * 10 + (c as u32 - '0' as u32) as u128;
            if next > max as u128 {
                over = true;
            } else {
                value = next;
            }
        }
        i = i + 1;
    }
    assert(digits.take(all@.len() - start) =~= digits);
    if over {
        None
    } else {
        Some(value as u64)
    }
}

// ---- white space ----

/// The characters with the Unicode property `White_Space`.
pub open spec fn is_space(c: char) -> bool {
    ||| '\u{9}' <= c <= '\u{d}'
    ||| c == '\u{20}'
    ||| c == '\u{85}'
    ||| c == '\u{a0}'
    ||| c == '\u{1680}'
    ||| '\u{2000}' <= c <= '\u{200a}'
    ||| c == '\u{2028}'
    ||| c == '\u{2029}'
    ||| c == '\u{202f}'
    ||| c == '\u{205f}'
    ||| c == '\u{3000}'
}

pub fn is_whitespace(c: char) -> (res: bool)
    ensures
        res == is_space(c),
{
    (c >= '\u{9}' && c <= '\u{d}') || c == '\u{20}' || c == '\u{85}' || c == '\u{a0}' || c
        == '\u{1680}' || (c >= '\u{2000}' && c <= '\u{200a}') || c == '\u{2028}' || c == '\u{2029}'
        || c == '\u{202f}' || c == '\u{205f}' || c == '\u{3000}'
}

/// How many characters stand before the first white space.
pub open spec fn word_length(s: Seq<char>) -> nat
    decreases s.len(),
{
    if s.len() == 0 || is_space(s[0]) {
        0
    } else {
        1 + word_length(s.skip(1))
    }
}

/// How many white-space characters `s` begins with.
pub open spec fn space_length(s: Seq<char>) -> nat
    decreases s.len(),
{
    if s.len() == 0 || !is_space(s[0]) {
        0
    } else {
        1 + space_length(s.skip(1))
    }
}

/// `s` without the white space at its beginning.
pub open spec fn trim_start(s: Seq<char>) -> Seq<char> {
    s.skip(space_length(s) as int)
}

/// `s` without the white space at its end.
pub open spec fn trim_end(s: Seq<char>) -> Seq<char>
    decreases s.len(),
{
    if s.len() > 0 && is_space(s.last()) {
        trim_end(s.drop_last())
    } else {
        s
    }
}

/// `s` without the white space around it.
pub open spec fn trimmed(s: Seq<char>) -> Seq<char> {
    trim_end(trim_start(s))
}

pub proof fn lemma_space_length(s: Seq<char>)
    ensures
        space_length(s) <= s.len(),
        forall|i: int| 0 <= i < space_length(s) ==> is_space(#[trigger] s[i]),
        space_length(s) < s.len() ==> !is_space(s[space_length(s) as int]),
    decreases s.len(),
{
    if s.len() > 0 && is_space(s[0]) {
        let rest = s.skip(1);
        lemma_space_length(rest);
        assert forall|i: int| 0 <= i < space_length(s) implies is_space(#[trigger] s[i]) by {
            if i > 0 {
                assert(rest[i - 1] == s[i]);
            }
        }
        if space_length(s) < s.len() {
            assert(rest[space_length(rest) as int] == s[space_length(s) as int]);
        }
    }
}

pub proof fn lemma_word_length(s: Seq<char>)
    ensures
        word_length(s) <= s.len(),
        forall|i: int| 0 <= i < word_length(s) ==> !is_space(#[trigger] s[i]),
        word_length(s) < s.len() ==> is_space(s[word_length(s) as int]),
    decreases s.len(),
{
    if s.len() > 0 && !is_space(s[0]) {
        let rest = s.skip(1);
        lemma_word_length(rest);
        assert forall|i: int| 0 <= i < word_length(s) implies !is_space(#[trigger] s[i]) by {
            if i > 0 {
                assert(rest[i - 1] == s[i]);
            }
        }
        if word_length(s) < s.len() {
            assert(rest[word_length(rest) as int] == s[word_length(s) as int]);
        }
    }
}

/// The position of the first white space at or after `from`, or the end.
fn word_end(all: &Vec<char>, from: usize) -> (res: usize)
    requires
        from <= all@.len(),
    ensures
        res == from + word_length(all@.skip(from as int)),
        from <= res <= all@.len(),
{
    let mut i: usize = from;
    assert(all@.skip(from as int).skip(0) =~= all@.skip(from as int));
    while i < all.len() && !is_whitespace(all[i])
        invariant
            from <= i <= all@.len(),
            word_length(all@.skip(from as int)) == i - from + word_length(all@.skip(i as int)),
        decreases all@.len() - i,
    {
        assert(all@.skip(i as int)[0] == all@[i as int]);
        assert(all@.skip(i as int).skip(1) =~= all@.skip(i + 1));
        i = i + 1;
    }
    if i < all.len() {
        assert(all@.skip(i as int)[0] == all@[i as int]);
    }
    i
}

/// The position of the first other character at or after `from`, or the end.
fn space_end(all: &Vec<char>, from: usize) -> (res: usize)
    requires
        from <= all@.len(),
    ensures
        res == from + space_length(all@.skip(from as int)),
        from <= res <= all@.len(),
{
    let mut i: usize = from;
    while i < all.len() && is_whitespace(all[i])
        invariant
            from <= i <= all@.len(),
            space_length(all@.skip(from as int)) == i - from + space_length(all@.skip(i as int)),
        decreases all@.len() - i,
    {
        assert(all@.skip(i as int)[0] == all@[i as int]);
        assert(all@.skip(i as int).skip(1) =~= all@.skip(i + 1));
        i = i + 1;
    }
    if i < all.len() {
        assert(all@.skip(i as int)[0] == all@[i as int]);
    }
    i
}

/// Takes the white space around `s` off.
pub fn trim<'a>(s: &'a str) -> (res: &'a str)
    ensures
        res@ == trimmed(s@),
{
    let all = chars(s);
    assert(all@.skip(0) =~= all@);
    let start = space_end(&all, 0);
    let mut end: usize = all.len();
    assert(all@.subrange(start as int, end as int) =~= trim_start(s@));
    while end > start && is_whitespace(all[end - 1])
        invariant
            start <= end <= all@.len(),
            trim_end(all@.subrange(start as int, end as int)) == trimmed(s@),
        decreases end,
    {
        assert(all@.subrange(start as int, end as int).drop_last() =~= all@.subrange(
            start as int,
            end - 1,
        ));
        end = end - 1;
    }
    s.substring_char(start, end)
}

/// The words of `s`: what white space separates.
pub open spec fn words(s: Seq<char>) -> Seq<Seq<char>>
    decreases s.len(),
    via words_decreases
{
    let rest = trim_start(s);
    if rest.len() == 0 {
        Seq::empty()
    } else {
        let n = word_length(rest) as int;
        seq![rest.take(n)] + words(rest.skip(n))
    }
}

#[via_fn]
proof fn words_decreases(s: Seq<char>) {
    lemma_space_length(s);
    lemma_word_length(trim_start(s));
}

/// Splits `s` into words.
pub fn split_words(s: &str) -> (res: Vec<String>)
    ensures
        texts(res@) == words(s@),
{
    let all = chars(s);
    let mut res: Vec<String> = Vec::new();
    let mut i: usize = 0;
    assert(all@.skip(0) =~= all@);
    assert(texts(res@) + words(all@) =~= words(all@));
    loop
        invariant
            all@ == s@,
            i <= all@.len(),
            texts(res@) + words(all@.skip(i as int)) == words(s@),
        ensures
            texts(res@) == words(s@),
        decreases all@.len() - i,
    {
        let ghost left = all@.skip(i as int);
        proof {
            lemma_space_length(left);
            lemma_word_length(trim_start(left));
        }
        let start = space_end(&all, i);
        assert(all@.skip(start as int) =~= trim_start(left));
        if start == all.len() {
            assert(words(left) =~= Seq::<Seq<char>>::empty());
            assert(texts(res@) + words(left) =~= texts(res@));
            break;
        }
        let end = word_end(&all, start);
        let ghost word = s@.subrange(start as int, end as int);
        assert(word =~= trim_start(left).take(end - start));
        assert(all@.skip(end as int) =~= trim_start(left).skip(end - start));
        assert(!is_space(trim_start(left)[0]));
        let ghost before = texts(res@);
        res.push(s.substring_char(start, end).to_owned());
        assert(texts(res@) =~= before.push(word));
        assert(before + (seq![word] + words(all@.skip(end as int))) =~= before.push(word) + words(
            all@.skip(end as int),
        ));
        i = end;
    }
    res
}

/// How many words `s` has, as a 32-bit count.
pub fn word_count(s: &str) -> (res: u32)
    ensures
        res == words(s@).len() as u32,
{
    let all = split_words(s);
    assert(texts(all@).len() == all@.len());
    #[verifier::truncate]
    (all.len() as u32)
}

/// `s` cut after each white-space character.
pub open spec fn cut(s: Seq<char>) -> Seq<Seq<char>>
    decreases s.len(),
    via cut_decreases
{
    if s.len() == 0 {
        Seq::empty()
    } else if word_length(s) >= s.len() {
        seq![s]
    } else {
        let n = word_length(s) as int + 1;
        seq![s.take(n)] + cut(s.skip(n))
    }
}

#[via_fn]
proof fn cut_decreases(s: Seq<char>) {
    lemma_word_length(s);
}

/// Cuts `s` after each white-space character, which stays with the piece that it ends.
pub fn pieces(s: &str) -> (res: Vec<String>)
    ensures
        texts(res@) == cut(s@),
{
    let all = chars(s);
    let mut res: Vec<String> = Vec::new();
    let mut i: usize = 0;
    assert(all@.skip(0) =~= all@);
    assert(texts(res@) + cut(all@) =~= cut(all@));
    while i < all.len()
        invariant
            all@ == s@,
            i <= all@.len(),
            texts(res@) + cut(all@.skip(i as int)) == cut(s@),
        decreases all@.len() - i,
    {
        let ghost left = all@.skip(i as int);
        proof {
            lemma_word_length(left);
        }
        let stop = word_end(&all, i);
        let end: usize = if stop < all.len() {
            stop + 1
        } else {
            stop
        };
        let ghost piece = s@.subrange(i as int, end as int);
        assert(piece =~= left.take(end - i));
        assert(all@.skip(end as int) =~= left.skip(end - i));
        let ghost before = texts(res@);
        res.push(s.substring_char(i, end).to_owned());
        assert(texts(res@) =~= before.push(piece));
        proof {
            if stop == all@.len() {
                assert(left.take(left.len() as int) =~= left);
                assert(all@.skip(end as int) =~= Seq::<char>::empty());
                assert(before + seq![left] =~= before.push(piece) + cut(Seq::<char>::empty()));
            } else {
                assert(before + (seq![piece] + cut(all@.skip(end as int))) =~= before.push(piece)
                    + cut(all@.skip(end as int)));
            }
        }
        i = end;
    }
    assert(all@.skip(i as int) =~= Seq::<char>::empty());
    assert(texts(res@) + cut(Seq::<char>::empty()) =~= texts(res@));
    res
}

/// The texts one after the other.
pub open spec fn flattened(list: Seq<Seq<char>>) -> Seq<char>
    decreases list.len(),
{
    if list.len() == 0 {
        Seq::empty()
    } else {
        list[0] + flattened(list.skip(1))
    }
}

/// The pieces of a text, put together, are the text; none is empty, and only the last character
/// of a piece can be white space.
pub proof fn lemma_pieces_rebuild(s: Seq<char>)
    ensures
        flattened(cut(s)) == s,
        forall|i: int|
            #![trigger cut(s)[i]]
            0 <= i < cut(s).len() ==> cut(s)[i].len() > 0 && forall|j: int|
                0 <= j < cut(s)[i].len() - 1 ==> !is_space(#[trigger] cut(s)[i][j]),
    decreases s.len(),
{
    if s.len() > 0 {
        lemma_word_length(s);
        if word_length(s) >= s.len() {
            assert(cut(s).skip(1) =~= Seq::<Seq<char>>::empty());
            assert(flattened(cut(s).skip(1)) =~= Seq::<char>::empty());
            assert(flattened(cut(s)) =~= s);
        } else {
            let n = word_length(s) as int + 1;
            let rest = s.skip(n);
            lemma_pieces_rebuild(rest);
            assert(cut(s).skip(1) =~= cut(rest));
            assert(s.take(n) + rest =~= s);
            assert forall|i: int|
                #![trigger cut(s)[i]]
                0 <= i < cut(s).len() implies cut(s)[i].len() > 0 && forall|j: int|
                0 <= j < cut(s)[i].len() - 1 ==> !is_space(#[trigger] cut(s)[i][j]) by {
                if i > 0 {
                    assert(cut(s)[i] == cut(rest)[i - 1]);
                } else {
                    assert forall|j: int| 0 <= j < cut(s)[0].len() - 1 implies !is_space(
                        #[trigger] cut(s)[0][j],
                    ) by {
                        assert(cut(s)[0][j] == s[j]);
                    }
                }
            }
        }
    }
}

// ---- beginnings and ends ----

/// `s` begins with `prefix`.
pub fn starts_with(s: &str, prefix: &str) -> (res: bool)
    ensures
        res == prefix@.is_prefix_of(s@),
{
    let n = prefix.unicode_len();
    if s.unicode_len() < n {
        return false;
    }
    let head = s.substring_char(0, n);
    assert(head@ =~= s@.subrange(0, n as int));
    same(head, prefix)
}

/// What follows `prefix` in `s`, if `s` begins with it.
pub fn strip_prefix<'a>(s: &'a str, prefix: &str) -> (res: Option<&'a str>)
    ensures
        match res {
            Some(rest) => prefix@.is_prefix_of(s@) && rest@ == s@.skip(prefix@.len() as int),
            None => !prefix@.is_prefix_of(s@),
        },
{
    if starts_with(s, prefix) {
        let rest = s.substring_char(prefix.unicode_len(), s.unicode_len());
        assert(rest@ =~= s@.skip(prefix@.len() as int));
        Some(rest)
    } else {
        None
    }
}

/// The first `n` characters of `s`, or all of it.
pub open spec fn beginning(s: Seq<char>, n: nat) -> Seq<char> {
    if s.len() <= n {
        s
    } else {
        s.take(n as int)
    }
}

pub fn take_chars(s: &str, n: usize) -> (res: String)
    ensures
        res@ == beginning(s@, n as nat),
{
    if s.unicode_len() <= n {
        s.to_owned()
    } else {
        let head = s.substring_char(0, n);
        assert(head@ =~= s@.take(n as int));
        head.to_owned()
    }
}

/// `s` cut after `max` characters, with an ellipsis where anything was cut off.
pub open spec fn abridged(s: Seq<char>, max: nat) -> Seq<char> {
    if s.len() <= max {
        s
    } else {
        s.take(max as int).push('\u{2026}')
    }
}

/// Cuts `s` after `max` characters and marks the cut with an ellipsis.
pub fn truncate(s: &str, max: usize) -> (res: String)
    ensures
        res@ == abridged(s@, max as nat),
{
    if s.unicode_len() <= max {
        s.to_owned()
    } else {
        proof {
            reveal_strlit("\u{2026}");
        }
        let head = s.substring_char(0, max);
        let res = joined(head, "\u{2026}");
        assert(res@ =~= s@.take(max as int).push('\u{2026}'));
        res
    }
}

/// `s` without the slashes at its end.
pub open spec fn without_slashes(s: Seq<char>) -> Seq<char>
    decreases s.len(),
{
    if s.len() > 0 && s.last() == '/' {
        without_slashes(s.drop_last())
    } else {
        s
    }
}

/// Takes the slashes at the end of a URL off.
pub fn trim_slashes(s: &str) -> (res: String)
    ensures
        res@ == without_slashes(s@),
{
    let all = chars(s);
    let mut end: usize = all.len();
    assert(all@.take(end as int) =~= s@);
    while end > 0 && all[end - 1] == '/'
        invariant
            end <= all@.len(),
            all@ == s@,
            without_slashes(s@) == without_slashes(s@.take(end as int)),
        decreases end,
    {
        assert(s@.take(end as int).drop_last() =~= s@.take(end - 1));
        end = end - 1;
    }
    let head = s.substring_char(0, end);
    assert(head@ =~= s@.take(end as int));
    head.to_owned()
}

/// Splits `s` at the last `mark`.
pub fn split_at_last<'a>(s: &'a str, mark: char) -> (res: Option<(&'a str, &'a str)>)
    ensures
        match res {
            Some((before, after)) => s@ == before@.push(mark) + after@ && !after@.contains(mark),
            None => !s@.contains(mark),
        },
{
    let all = chars(s);
    let mut i: usize = all.len();
    while i > 0
        invariant
            i <= all@.len(),
            all@ == s@,
            forall|j: int| i <= j < s@.len() ==> #[trigger] s@[j] != mark,
        decreases i,
    {
        i = i - 1;
        if all[i] == mark {
            let before = s.substring_char(0, i);
            let after = s.substring_char(i + 1, all.len());
            assert(s@ =~= before@.push(mark) + after@);
            return Some((before, after));
        }
    }
    None
}

/// How many characters stand before the first `mark`.
pub open spec fn run_before(s: Seq<char>, mark: char) -> nat
    decreases s.len(),
{
    if s.len() == 0 || s[0] == mark {
        0
    } else {
        1 + run_before(s.skip(1), mark)
    }
}

pub proof fn lemma_run_before(s: Seq<char>, mark: char)
    ensures
        run_before(s, mark) <= s.len(),
        forall|i: int| 0 <= i < run_before(s, mark) ==> #[trigger] s[i] != mark,
        run_before(s, mark) < s.len() ==> s[run_before(s, mark) as int] == mark,
    decreases s.len(),
{
    if s.len() > 0 && s[0] != mark {
        let rest = s.skip(1);
        lemma_run_before(rest, mark);
        assert forall|i: int| 0 <= i < run_before(s, mark) implies #[trigger] s[i] != mark by {
            if i > 0 {
                assert(rest[i - 1] == s[i]);
            }
        }
        if run_before(s, mark) < s.len() {
            assert(rest[run_before(rest, mark) as int] == s[run_before(s, mark) as int]);
        }
    }
}

/// The position of the first `mark` at or after `from`, or the end.
fn find_from(all: &Vec<char>, from: usize, mark: char) -> (res: usize)
    requires
        from <= all@.len(),
    ensures
        res == from + run_before(all@.skip(from as int), mark),
        from <= res <= all@.len(),
{
    let mut i: usize = from;
    while i < all.len() && all[i] != mark
        invariant
            from <= i <= all@.len(),
            run_before(all@.skip(from as int), mark) == i - from + run_before(
                all@.skip(i as int),
                mark,
            ),
        decreases all@.len() - i,
    {
        assert(all@.skip(i as int)[0] == all@[i as int]);
        assert(all@.skip(i as int).skip(1) =~= all@.skip(i + 1));
        i = i + 1;
    }
    if i < all.len() {
        assert(all@.skip(i as int)[0] == all@[i as int]);
    }
    i
}

/// What `mark` separates. A text without it is one part, an empty text too.
pub open spec fn parts(s: Seq<char>, mark: char) -> Seq<Seq<char>>
    decreases s.len(),
    via parts_decreases
{
    if run_before(s, mark) >= s.len() {
        seq![s]
    } else {
        let n = run_before(s, mark) as int;
        seq![s.take(n)] + parts(s.skip(n + 1), mark)
    }
}

#[via_fn]
proof fn parts_decreases(s: Seq<char>, mark: char) {
    lemma_run_before(s, mark);
}

/// Splits `s` at every `mark`.
pub fn split_parts(s: &str, mark: char) -> (res: Vec<String>)
    ensures
        texts(res@) == parts(s@, mark),
{
    let all = chars(s);
    let mut res: Vec<String> = Vec::new();
    let mut i: usize = 0;
    assert(all@.skip(0) =~= all@);
    assert(texts(res@) + parts(all@, mark) =~= parts(all@, mark));
    loop
        invariant
            all@ == s@,
            i <= all@.len(),
            texts(res@) + parts(all@.skip(i as int), mark) == parts(s@, mark),
        decreases all@.len() - i,
    {
        let ghost left = all@.skip(i as int);
        proof {
            lemma_run_before(left, mark);
        }
        let stop = find_from(&all, i, mark);
        let ghost before = texts(res@);
        let ghost part = s@.subrange(i as int, stop as int);
        res.push(s.substring_char(i, stop).to_owned());
        assert(texts(res@) =~= before.push(part));
        if stop == all.len() {
            assert(part =~= left);
            assert(before + seq![left] =~= before.push(left));
            return res;
        }
        assert(part =~= left.take(stop - i));
        assert(all@.skip(stop + 1) =~= left.skip(stop - i + 1));
        assert(before + (seq![part] + parts(all@.skip(stop + 1), mark)) =~= before.push(part)
            + parts(all@.skip(stop + 1), mark));
        i = stop + 1;
    }
}

/// A line that a line feed ended, without the carriage return before that line feed.
pub open spec fn without_return(line: Seq<char>) -> Seq<char> {
    if line.len() > 0 && line.last() == '\r' {
        line.drop_last()
    } else {
        line
    }
}

/// The lines of `s`. Each ends with a line feed, or a carriage return and a line feed; the last
/// may do without.
pub open spec fn lines(s: Seq<char>) -> Seq<Seq<char>>
    decreases s.len(),
    via lines_decreases
{
    if s.len() == 0 {
        Seq::empty()
    } else if run_before(s, '\n') >= s.len() {
        seq![s]
    } else {
        let n = run_before(s, '\n') as int;
        seq![without_return(s.take(n))] + lines(s.skip(n + 1))
    }
}

#[via_fn]
proof fn lines_decreases(s: Seq<char>) {
    lemma_run_before(s, '\n');
}

/// Splits `s` into lines.
pub fn split_lines(s: &str) -> (res: Vec<String>)
    ensures
        texts(res@) == lines(s@),
{
    let all = chars(s);
    let mut res: Vec<String> = Vec::new();
    let mut i: usize = 0;
    assert(all@.skip(0) =~= all@);
    assert(texts(res@) + lines(all@) =~= lines(all@));
    while i < all.len()
        invariant
            all@ == s@,
            i <= all@.len(),
            texts(res@) + lines(all@.skip(i as int)) == lines(s@),
        decreases all@.len() - i,
    {
        let ghost left = all@.skip(i as int);
        proof {
            lemma_run_before(left, '\n');
        }
        let stop = find_from(&all, i, '\n');
        let ghost before = texts(res@);
        if stop == all.len() {
            res.push(s.substring_char(i, stop).to_owned());
            assert(s@.subrange(i as int, stop as int) =~= left);
            assert(texts(res@) =~= before.push(left));
            assert(before + seq![left] =~= before.push(left));
            return res;
        }
        let end: usize = if stop > i && all[stop - 1] == '\r' {
            stop - 1
        } else {
            stop
        };
        let ghost line = s@.subrange(i as int, end as int);
        assert(left.take(stop - i) =~= s@.subrange(i as int, stop as int));
        assert(line =~= without_return(left.take(stop - i)));
        assert(all@.skip(stop + 1) =~= left.skip(stop - i + 1));
        res.push(s.substring_char(i, end).to_owned());
        assert(texts(res@) =~= before.push(line));
        assert(before + (seq![line] + lines(all@.skip(stop + 1))) =~= before.push(line) + lines(
            all@.skip(stop + 1),
        ));
        i = stop + 1;
    }
    assert(all@.skip(i as int) =~= Seq::<char>::empty());
    assert(texts(res@) + lines(Seq::<char>::empty()) =~= texts(res@));
    res
}

/// The items with `mark` between them.
pub open spec fn joined_by(list: Seq<Seq<char>>, mark: Seq<char>) -> Seq<char>
    decreases list.len(),
{
    if list.len() == 0 {
        Seq::empty()
    } else if list.len() == 1 {
        list[0]
    } else {
        joined_by(list.drop_last(), mark) + mark + list.last()
    }
}

/// Joins the items of a list with `mark` between them.
pub fn join(list: &Vec<String>, mark: &str) -> (res: String)
    ensures
        res@ == joined_by(texts(list@), mark@),
{
    let mut res = String::new();
    let mut i: usize = 0;
    let ghost all = texts(list@);
    assert(all.take(0) =~= Seq::<Seq<char>>::empty());
    assert(res@ =~= Seq::<char>::empty());
    while i < list.len()
        invariant
            i <= list@.len(),
            all == texts(list@),
            res@ == joined_by(all.take(i as int), mark@),
        decreases list@.len() - i,
    {
        let ghost now = all.take(i + 1);
        assert(now.drop_last() =~= all.take(i as int));
        assert(now.last() == list@[i as int]@);
        if i > 0 {
            res.append(mark);
        }
        res.append(list[i].as_str());
        assert(res@ =~= joined_by(now, mark@));
        i = i + 1;
    }
    assert(all.take(i as int) =~= all);
    res
}

// ---- columns ----

/// `n` spaces.
pub open spec fn spaces(n: int) -> Seq<char> {
    Seq::new(
        if n < 0 {
            0
        } else {
            n as nat
        },
        |i: int| ' ',
    )
}

fn write_spaces(n: usize) -> (res: String)
    ensures
        res@ == spaces(n as int),
{
    proof {
        reveal_strlit(" ");
    }
    let mut res = String::new();
    let mut i: usize = 0;
    while i < n
        invariant
            i <= n,
            " "@ == seq![' '],
            res@ == spaces(i as int),
        decreases n - i,
    {
        res.append(" ");
        i = i + 1;
        assert(res@ =~= spaces(i as int));
    }
    assert(res@ =~= spaces(n as int));
    res
}

/// `s` in a column of the given width, at its left edge.
pub fn left_column(s: &str, width: usize) -> (res: String)
    ensures
        res@ == s@ + spaces(width - s@.len()),
{
    let n = s.unicode_len();
    let fill: usize = if n < width {
        width - n
    } else {
        0
    };
    assert(spaces(fill as int) =~= spaces(width - s@.len()));
    joined(s, write_spaces(fill).as_str())
}

/// `s` in a column of the given width, at its right edge.
pub fn right_column(s: &str, width: usize) -> (res: String)
    ensures
        res@ == spaces(width - s@.len()) + s@,
{
    let n = s.unicode_len();
    let fill: usize = if n < width {
        width - n
    } else {
        0
    };
    assert(spaces(fill as int) =~= spaces(width - s@.len()));
    joined(write_spaces(fill).as_str(), s)
}

/// Every piece of a text but the last ends with white space.
pub proof fn lemma_pieces_end(s: Seq<char>)
    ensures
        forall|i: int| 0 <= i < cut(s).len() - 1 ==> is_space((#[trigger] cut(s)[i]).last()),
    decreases s.len(),
{
    if s.len() > 0 {
        lemma_word_length(s);
        if word_length(s) < s.len() {
            let n = word_length(s) as int + 1;
            let rest = s.skip(n);
            lemma_pieces_end(rest);
            assert forall|i: int| 0 <= i < cut(s).len() - 1 implies is_space(
                (#[trigger] cut(s)[i]).last(),
            ) by {
                if i > 0 {
                    assert(cut(s)[i] == cut(rest)[i - 1]);
                } else {
                    assert(cut(s)[0] == s.take(n));
                }
            }
        }
    }
}

// ---- what the functions above come to ----

/// A number below ten is written as one digit; any other as its tenth, rounded down, and the digit
/// of what that leaves.
pub proof fn lemma_decimals_are_written(
    n: u64,
    res: String,
    tenth: String,
)
    requires
        call_ensures(write_decimal, (n,), res),
        call_ensures(write_decimal, (n / 10,), tenth),
    ensures
        n < 10 ==> res@ == seq![('0' as u64 + n) as char],
        n >= 10 ==> res@ == tenth@.push(('0' as u64 + n % 10) as char),
{
    lemma_digit(n as nat % 10);
    assert(n < 10 ==> n % 10 == n);
    assert((n / 10) as nat == n as nat / 10);
}

/// The same in hex, whose digits are those of decimal and the letters `a` to `f`.
pub proof fn lemma_hex_is_written(n: u128, res: String, sixteenth: String)
    requires
        call_ensures(write_in_base, (n, 16u128), res),
        call_ensures(write_in_base, (n / 16, 16u128), sixteenth),
    ensures
        ({
            let d = n % 16;
            let c = if d < 10 {
                ('0' as u128 + d) as char
            } else {
                ('a' as u128 + d - 10) as char
            };
            &&& n < 16 ==> res@ == seq![c]
            &&& n >= 16 ==> res@ == sixteenth@.push(c)
        }),
{
    lemma_digit(n as nat % 16);
    assert(n < 16 ==> n % 16 == n);
    assert((n / 16) as nat == n as nat / 16);
}

/// A number that is written in decimal spells itself.
proof fn lemma_decimal_spells(n: nat)
    ensures
        decimal(n).len() > 0,
        forall|i: int| 0 <= i < decimal(n).len() ==> is_digit(#[trigger] decimal(n)[i]),
        value_of(decimal(n)) == n,
    decreases n,
{
    lemma_digit(n % 10);
    let s = decimal(n);
    if n < 10 {
        assert(s.drop_last() =~= Seq::<char>::empty());
        assert(value_of(s.drop_last()) == 0);
    } else {
        lemma_decimal_spells(n / 10);
        assert(s.drop_last() =~= decimal(n / 10));
        assert forall|i: int| 0 <= i < s.len() implies is_digit(#[trigger] s[i]) by {
            if i < s.len() - 1 {
                assert(s[i] == decimal(n / 10)[i]);
            }
        }
    }
}

/// A number that is written is read back, unless it is above the limit.
pub proof fn lemma_numbers_are_read_back(n: u64, res: String, s: &str, max: u64, back: Option<u64>)
    requires
        call_ensures(write_decimal, (n,), res),
        s@ == res@,
        call_ensures(read_number, (s, max), back),
    ensures
        n <= max ==> back == Some(n),
        n > max ==> back is None,
{
    lemma_decimal_spells(n as nat);
    assert(is_digit(decimal(n as nat)[0]));
    assert(unsigned(s@) == s@);
}

/// How a number is read. Nothing, and what holds anything but digits behind an optional plus sign,
/// is no number. One digit counts by itself; behind digits that are a number it counts with ten
/// times that number, as far as the limit goes.
pub proof fn lemma_numbers_are_read(
    s: &str,
    max: u64,
    res: Option<u64>,
    longer: &str,
    c: char,
    next: Option<u64>,
)
    requires
        call_ensures(read_number, (s, max), res),
        call_ensures(read_number, (longer, max), next),
        longer@ == s@.push(c),
    ensures
        s@.len() == 0 ==> res is None,
        s@ == seq!['+'] ==> res is None,
        s@.len() > 0 && s@[0] != '+' && (exists|i: int|
            0 <= i < s@.len() && !('0' <= #[trigger] s@[i] <= '9')) ==> res is None,
        !('0' <= c <= '9') && s@.len() > 0 ==> next is None,
        '0' <= c <= '9' && (s@.len() == 0 || s@ == seq!['+']) && c as int - '0' as int <= max
            ==> next == Some((c as int - '0' as int) as u64),
        '0' <= c <= '9' && res is Some && 10 * res->0 + (c as int - '0' as int) <= max ==> next
            == Some((10 * res->0 + (c as int - '0' as int)) as u64),
        '0' <= c <= '9' && res is Some && 10 * res->0 + (c as int - '0' as int) > max ==> next
            is None,
        s@.len() > 0 && s@ != seq!['+'] && res is None ==> next is None,
{
    let a = unsigned(s@);
    let b = unsigned(longer@);
    if s@.len() > 0 {
        assert(longer@[0] == s@[0]);
        assert(b =~= a.push(c));
        assert(b.last() == c);
        assert(b.drop_last() =~= a);
        assert(b[b.len() - 1] == c);
    } else if c != '+' {
        assert(b =~= seq![c]);
        assert(b.drop_last() =~= Seq::<char>::empty());
    }
    if s@ == seq!['+'] {
        assert(a =~= Seq::<char>::empty());
        assert(value_of(a) == 0);
        assert(b =~= seq![c]);
    }
    if s@.len() > 0 && s@[0] != '+' && (exists|i: int|
        0 <= i < s@.len() && !('0' <= #[trigger] s@[i] <= '9')) {
        let i = choose|i: int| 0 <= i < s@.len() && !('0' <= #[trigger] s@[i] <= '9');
        assert(!is_digit(a[i]));
    }
    if '0' <= c <= '9' && (s@.len() == 0 || s@ == seq!['+']) {
        assert(b =~= seq![c]);
        assert(value_of(b.drop_last()) == 0);
        assert(value_of(b) == c as nat - '0' as nat);
        assert(forall|i: int| 0 <= i < b.len() ==> is_digit(#[trigger] b[i]));
    }
    if s@.len() > 0 && s@ != seq!['+'] && res is None && next is Some {
        assert(a.len() > 0) by {
            if a.len() == 0 {
                assert(s@ =~= seq!['+']);
            }
        }
        assert forall|i: int| 0 <= i < a.len() implies is_digit(#[trigger] a[i]) by {
            assert(b[i] == a[i]);
        }
        assert(value_of(b) >= value_of(a));
    }
    if '0' <= c <= '9' && res is Some {
        assert(value_of(b) == value_of(a) * 10 + (c as nat - '0' as nat) as nat);
        assert forall|i: int| 0 <= i < b.len() implies is_digit(#[trigger] b[i]) by {
            if i < a.len() {
                assert(b[i] == a[i]);
            }
        }
    }
}

/// White space is the space, what stands from tab to carriage return, and seventeen characters
/// beyond ASCII.
pub proof fn lemma_white_space(c: char, res: bool)
    requires
        call_ensures(is_whitespace, (c,), res),
    ensures
        c as int <= 0x7f ==> (res <==> c == ' ' || 9 <= c as int <= 13),
        c as int > 0x7f ==> (res <==> {
            ||| c as int == 0x85
            ||| c as int == 0xa0
            ||| c as int == 0x1680
            ||| 0x2000 <= c as int <= 0x200a
            ||| c as int == 0x2028
            ||| c as int == 0x2029
            ||| c as int == 0x202f
            ||| c as int == 0x205f
            ||| c as int == 0x3000
        }),
{
}

proof fn lemma_trim_end(s: Seq<char>)
    ensures
        trim_end(s).len() <= s.len(),
        trim_end(s) == s.take(trim_end(s).len() as int),
        forall|i: int| trim_end(s).len() <= i < s.len() ==> is_space(#[trigger] s[i]),
        trim_end(s).len() > 0 ==> !is_space(trim_end(s).last()),
    decreases s.len(),
{
    if s.len() > 0 && is_space(s.last()) {
        let t = s.drop_last();
        lemma_trim_end(t);
        assert forall|i: int| trim_end(s).len() <= i < s.len() implies is_space(
            #[trigger] s[i],
        ) by {
            if i < t.len() {
                assert(t[i] == s[i]);
            }
        }
        assert(t.take(trim_end(s).len() as int) =~= s.take(trim_end(s).len() as int));
    } else {
        assert(s.take(s.len() as int) =~= s);
    }
}

/// What is left of a text without the white space around it: it stands in the text, nothing but
/// white space stands before or behind it, and it neither begins nor ends with any.
pub proof fn lemma_trimmed_is_bare(s: &str, res: &str) -> (from: int)
    requires
        call_ensures(trim, (s,), res),
    ensures
        0 <= from <= from + res@.len() <= s@.len(),
        res@ == s@.subrange(from, from + res@.len()),
        forall|i: int| 0 <= i < from ==> is_space(#[trigger] s@[i]),
        forall|i: int| from + res@.len() <= i < s@.len() ==> is_space(#[trigger] s@[i]),
        res@.len() > 0 ==> !is_space(res@[0]) && !is_space(res@.last()),
{
    let from = space_length(s@) as int;
    let left = trim_start(s@);
    lemma_space_length(s@);
    lemma_trim_end(left);
    let n = res@.len() as int;
    assert(left.take(n) =~= s@.subrange(from, from + n));
    assert forall|i: int| from + n <= i < s@.len() implies is_space(#[trigger] s@[i]) by {
        assert(left[i - from] == s@[i]);
    }
    if n > 0 {
        assert(res@[0] == left[0]);
        assert(left[0] == s@[from]);
    }
    from
}

/// The words of a text, with the place at which each begins.
proof fn lemma_words(s: Seq<char>) -> (starts: Seq<int>)
    ensures
        starts.len() == words(s).len(),
        forall|i: int|
            #![trigger starts[i]]
            0 <= i < starts.len() ==> {
                let n = words(s)[i].len() as int;
                &&& 0 <= starts[i] <= starts[i] + n <= s.len()
                &&& n > 0
                &&& words(s)[i] == s.subrange(starts[i], starts[i] + n)
                &&& forall|j: int| starts[i] <= j < starts[i] + n ==> !is_space(#[trigger] s[j])
                &&& starts[i] + n < s.len() ==> is_space(s[starts[i] + n])
            },
        forall|i: int, k: int|
            0 <= i < k < starts.len() ==> #[trigger] starts[i] + words(s)[i].len() < #[trigger] starts[k],
        forall|j: int|
            0 <= j < s.len() && !is_space(#[trigger] s[j]) ==> exists|i: int|
                0 <= i < starts.len() && #[trigger] starts[i] <= j < starts[i] + words(s)[i].len(),
    decreases s.len(),
{
    lemma_space_length(s);
    let k = space_length(s) as int;
    let rest = trim_start(s);
    if rest.len() == 0 {
        assert forall|j: int| 0 <= j < s.len() implies is_space(#[trigger] s[j]) by {}
        Seq::empty()
    } else {
        lemma_word_length(rest);
        let n = word_length(rest) as int;
        assert(!is_space(rest[0]));
        let more = rest.skip(n);
        let later = lemma_words(more);
        let off = k + n;
        let starts = seq![k] + later.map_values(|i: int| i + off);
        let all = words(s);
        assert(more =~= s.skip(off));
        assert forall|i: int|
            #![trigger starts[i]]
            0 <= i < starts.len() implies {
            let m = all[i].len() as int;
            &&& 0 <= starts[i] <= starts[i] + m <= s.len()
            &&& m > 0
            &&& all[i] == s.subrange(starts[i], starts[i] + m)
            &&& forall|j: int| starts[i] <= j < starts[i] + m ==> !is_space(#[trigger] s[j])
            &&& starts[i] + m < s.len() ==> is_space(s[starts[i] + m])
        } by {
            let m = all[i].len() as int;
            if i == 0 {
                assert(all[0] == rest.take(n));
                assert(rest.take(n) =~= s.subrange(k, k + n));
                assert forall|j: int| k <= j < k + n implies !is_space(#[trigger] s[j]) by {
                    assert(rest[j - k] == s[j]);
                }
                if k + n < s.len() {
                    assert(rest[n] == s[k + n]);
                }
            } else {
                let a = later[i - 1];
                assert(starts[i] == a + off);
                assert(all[i] == words(more)[i - 1]);
                assert(more.subrange(a, a + m) =~= s.subrange(a + off, a + off + m));
                assert forall|j: int| starts[i] <= j < starts[i] + m implies !is_space(
                    #[trigger] s[j],
                ) by {
                    assert(more[j - off] == s[j]);
                }
                if starts[i] + m < s.len() {
                    assert(more[a + m] == s[starts[i] + m]);
                }
            }
        }
        assert forall|i: int, l: int| 0 <= i < l < starts.len() implies #[trigger] starts[i]
            + all[i].len() < #[trigger] starts[l] by {
            assert(all[l] == words(more)[l - 1]);
            if i == 0 {
                assert(all[0] == rest.take(n));
                let a = later[l - 1];
                assert(a >= 0);
                if a == 0 {
                    assert(!is_space(more[0]));
                    assert(more[0] == rest[n]);
                }
            } else {
                assert(all[i] == words(more)[i - 1]);
                assert(later[i - 1] + words(more)[i - 1].len() < later[l - 1]);
            }
        }
        assert forall|j: int| 0 <= j < s.len() && !is_space(#[trigger] s[j]) implies exists|i: int|
            0 <= i < starts.len() && #[trigger] starts[i] <= j < starts[i] + all[i].len() by {
            if j < k {
                assert(is_space(s[j]));
            } else if j < off {
                assert(starts[0] == k);
                assert(all[0] == rest.take(n));
            } else {
                assert(more[j - off] == s[j]);
                let i = choose|i: int|
                    0 <= i < later.len() && #[trigger] later[i] <= j - off < later[i] + words(
                        more,
                    )[i].len();
                assert(starts[i + 1] == later[i] + off);
                assert(all[i + 1] == words(more)[i]);
            }
        }
        starts
    }
}

/// The words of a text are its longest runs without white space, in order: each stands in the text
/// where it begins, holds no white space and is bordered by it, and every character that is none is
/// in one of them.
pub proof fn lemma_words_are_runs(s: &str, res: Vec<String>, count: u32) -> (starts: Seq<int>)
    requires
        call_ensures(split_words, (s,), res),
        call_ensures(word_count, (s,), count),
    ensures
        starts.len() == res@.len(),
        res@.len() <= u32::MAX ==> count == res@.len(),
        forall|i: int|
            #![trigger starts[i]]
            0 <= i < starts.len() ==> {
                let n = res@[i]@.len() as int;
                &&& 0 <= starts[i] <= starts[i] + n <= s@.len()
                &&& n > 0
                &&& res@[i]@ == s@.subrange(starts[i], starts[i] + n)
                &&& forall|j: int| starts[i] <= j < starts[i] + n ==> !is_space(#[trigger] s@[j])
                &&& starts[i] + n < s@.len() ==> is_space(s@[starts[i] + n])
            },
        forall|i: int, k: int|
            0 <= i < k < starts.len() ==> #[trigger] starts[i] + res@[i]@.len() < #[trigger] starts[k],
        forall|j: int|
            0 <= j < s@.len() && !is_space(#[trigger] s@[j]) ==> exists|i: int|
                0 <= i < starts.len() && #[trigger] starts[i] <= j < starts[i] + res@[i]@.len(),
{
    let all = words(s@);
    let starts = lemma_words(s@);
    assert(texts(res@).len() == res@.len());
    assert forall|i: int| 0 <= i < res@.len() implies (#[trigger] res@[i])@ == all[i] by {
        assert(texts(res@)[i] == res@[i]@);
    }
    assert forall|j: int| 0 <= j < s@.len() && !is_space(#[trigger] s@[j]) implies exists|i: int|
        0 <= i < starts.len() && #[trigger] starts[i] <= j < starts[i] + res@[i]@.len() by {
        let i = choose|i: int|
            0 <= i < starts.len() && #[trigger] starts[i] <= j < starts[i] + all[i].len();
        assert(res@[i]@ == all[i]);
    }
    starts
}

/// The pieces of a text, put together, are the text. None is empty; within one, white space can only
/// stand last, and there it stands in every piece but perhaps the last.
pub proof fn lemma_pieces_end_with_words(s: &str, res: Vec<String>)
    requires
        call_ensures(pieces, (s,), res),
    ensures
        flattened(texts(res@)) == s@,
        forall|i: int|
            #![trigger res@[i]]
            0 <= i < res@.len() ==> {
                &&& res@[i]@.len() > 0
                &&& forall|j: int|
                    0 <= j < res@[i]@.len() - 1 ==> !is_space(#[trigger] res@[i]@[j])
                &&& i < res@.len() - 1 ==> is_space(res@[i]@.last())
            },
{
    lemma_pieces_rebuild(s@);
    lemma_pieces_end(s@);
    assert(texts(res@).len() == res@.len());
    assert forall|i: int|
        #![trigger res@[i]]
        0 <= i < res@.len() implies {
        &&& res@[i]@.len() > 0
        &&& forall|j: int| 0 <= j < res@[i]@.len() - 1 ==> !is_space(#[trigger] res@[i]@[j])
        &&& i < res@.len() - 1 ==> is_space(res@[i]@.last())
    } by {
        assert(texts(res@)[i] == res@[i]@);
        assert(cut(s@)[i] == res@[i]@);
    }
}

/// What is cut off a text is its end: up to the length asked for it is kept, and where anything was
/// cut off by [`truncate`], an ellipsis says so.
pub proof fn lemma_beginnings_are_kept(s: &str, n: usize, taken: String, told: String)
    requires
        call_ensures(take_chars, (s, n), taken),
        call_ensures(truncate, (s, n), told),
    ensures
        s@.len() <= n ==> taken@ == s@ && told@ == s@,
        s@.len() > n ==> taken@ == s@.take(n as int) && told@ == s@.take(n as int).push('\u{2026}'),
{
}

proof fn lemma_without_slashes(s: Seq<char>)
    ensures
        without_slashes(s).len() <= s.len(),
        without_slashes(s) == s.take(without_slashes(s).len() as int),
        forall|i: int| without_slashes(s).len() <= i < s.len() ==> #[trigger] s[i] == '/',
        without_slashes(s).len() > 0 ==> without_slashes(s).last() != '/',
    decreases s.len(),
{
    if s.len() > 0 && s.last() == '/' {
        let t = s.drop_last();
        lemma_without_slashes(t);
        assert forall|i: int| without_slashes(s).len() <= i < s.len() implies #[trigger] s[i]
            == '/' by {
            if i < t.len() {
                assert(t[i] == s[i]);
            }
        }
        assert(t.take(without_slashes(s).len() as int) =~= s.take(without_slashes(s).len() as int));
    } else {
        assert(s.take(s.len() as int) =~= s);
    }
}

/// Only the slashes at the end of a text are taken off, and all of them.
pub proof fn lemma_slashes_are_taken_off(s: &str, res: String)
    requires
        call_ensures(trim_slashes, (s,), res),
    ensures
        res@.len() <= s@.len(),
        res@ == s@.take(res@.len() as int),
        forall|i: int| res@.len() <= i < s@.len() ==> #[trigger] s@[i] == '/',
        res@.len() > 0 ==> res@.last() != '/',
{
    lemma_without_slashes(s@);
}

/// One item more at the front.
proof fn lemma_joined_by_first(first: Seq<char>, rest: Seq<Seq<char>>, mark: Seq<char>)
    requires
        rest.len() > 0,
    ensures
        joined_by(seq![first] + rest, mark) == first + mark + joined_by(rest, mark),
    decreases rest.len(),
{
    let all = seq![first] + rest;
    if rest.len() == 1 {
        assert(all.drop_last() =~= seq![first]);
        assert(all.last() == rest[0]);
        assert(seq![first].len() == 1);
        assert(joined_by(seq![first], mark) == first);
        assert(joined_by(all, mark) =~= first + mark + rest[0]);
    } else {
        let before = rest.drop_last();
        lemma_joined_by_first(first, before, mark);
        assert(all.drop_last() =~= seq![first] + before);
        assert(all.last() == rest.last());
        assert(first + mark + joined_by(before, mark) + mark + rest.last() =~= first + mark + (
        joined_by(before, mark) + mark + rest.last()));
    }
}

proof fn lemma_parts(s: Seq<char>, mark: char)
    ensures
        parts(s, mark).len() > 0,
        joined_by(parts(s, mark), seq![mark]) == s,
        forall|i: int| 0 <= i < parts(s, mark).len() ==> !(#[trigger] parts(s, mark)[i]).contains(mark),
    decreases s.len(),
{
    lemma_run_before(s, mark);
    let n = run_before(s, mark) as int;
    if n >= s.len() {
        assert(!s.contains(mark));
        assert(joined_by(seq![s], seq![mark]) == s);
    } else {
        let rest = s.skip(n + 1);
        lemma_parts(rest, mark);
        let first = s.take(n);
        assert(!first.contains(mark)) by {
            if first.contains(mark) {
                let i = choose|i: int| 0 <= i < first.len() && first[i] == mark;
                assert(s[i] == mark);
            }
        }
        lemma_joined_by_first(first, parts(rest, mark), seq![mark]);
        assert(first + seq![mark] + rest =~= s);
        assert forall|i: int| 0 <= i < parts(s, mark).len() implies !(
        #[trigger] parts(s, mark)[i]).contains(mark) by {
            if i > 0 {
                assert(parts(s, mark)[i] == parts(rest, mark)[i - 1]);
            }
        }
    }
}

/// What a mark separates: the parts, put together with the mark between them, are the text, and
/// none of them holds it.
pub proof fn lemma_parts_are_separated(s: &str, mark: char, res: Vec<String>, between: &str, all: String)
    requires
        call_ensures(split_parts, (s, mark), res),
        between@ == seq![mark],
        call_ensures(join, (&res, between), all),
    ensures
        res@.len() > 0,
        all@ == s@,
        forall|i: int| 0 <= i < res@.len() ==> !(#[trigger] res@[i])@.contains(mark),
{
    lemma_parts(s@, mark);
    assert(texts(res@).len() == res@.len());
    assert forall|i: int| 0 <= i < res@.len() implies !(#[trigger] res@[i])@.contains(mark) by {
        assert(texts(res@)[i] == res@[i]@);
    }
}

/// A list is joined one item behind the other, with the mark between two; nothing stands before the
/// first or behind the last.
pub proof fn lemma_lists_are_joined(
    list: Vec<String>,
    mark: &str,
    res: String,
    longer: Vec<String>,
    item: String,
    more: String,
)
    requires
        call_ensures(join, (&list, mark), res),
        longer@ == list@.push(item),
        call_ensures(join, (&longer, mark), more),
    ensures
        list@.len() == 0 ==> res@.len() == 0 && more@ == item@,
        list@.len() > 0 ==> more@ == res@ + mark@ + item@,
{
    let a = texts(list@);
    let b = texts(longer@);
    assert(a.len() == list@.len());
    assert(b =~= a.push(item@));
    assert(b.drop_last() =~= a);
}

/// The lines of a text, with what ends each.
proof fn lemma_lines(s: Seq<char>) -> (ends: Seq<Seq<char>>)
    ensures
        ends.len() == lines(s).len(),
        flattened(Seq::new(lines(s).len(), |i: int| lines(s)[i] + ends[i])) == s,
        forall|i: int, j: int|
            0 <= i < lines(s).len() && 0 <= j < lines(s)[i].len() ==> #[trigger] lines(s)[i][j] != '\n',
        forall|i: int|
            #![trigger ends[i]]
            0 <= i < ends.len() ==> {
                &&& ends[i].len() <= 2
                &&& ends[i].len() == 0 ==> i == ends.len() - 1 && lines(s)[i].len() > 0
                &&& ends[i].len() > 0 ==> ends[i].last() == '\n'
                &&& ends[i].len() == 2 ==> ends[i][0] == '\r'
                &&& ends[i].len() == 1 && lines(s)[i].len() > 0 ==> lines(s)[i].last() != '\r'
            },
    decreases s.len(),
{
    lemma_run_before(s, '\n');
    let all = lines(s);
    if s.len() == 0 {
        let ends = Seq::<Seq<char>>::empty();
        assert(Seq::new(all.len(), |i: int| all[i] + ends[i]) =~= Seq::<Seq<char>>::empty());
        assert(flattened(Seq::<Seq<char>>::empty()) =~= s);
        ends
    } else if run_before(s, '\n') >= s.len() {
        let ends = seq![Seq::<char>::empty()];
        let whole = Seq::new(all.len(), |i: int| all[i] + ends[i]);
        assert(whole =~= seq![s]) by {
            assert(s + Seq::<char>::empty() =~= s);
        }
        assert(seq![s].skip(1) =~= Seq::<Seq<char>>::empty());
        assert(flattened(Seq::<Seq<char>>::empty()) =~= Seq::<char>::empty());
        assert(flattened(whole) =~= s);
        assert(all[0] == s);
        ends
    } else {
        let n = run_before(s, '\n') as int;
        let rest = s.skip(n + 1);
        let later = lemma_lines(rest);
        let line = s.take(n);
        let end = if line.len() > 0 && line.last() == '\r' {
            seq!['\r', '\n']
        } else {
            seq!['\n']
        };
        let ends = seq![end] + later;
        let whole = Seq::new(all.len(), |i: int| all[i] + ends[i]);
        let tail = Seq::new(lines(rest).len(), |i: int| lines(rest)[i] + later[i]);
        assert(all[0] == without_return(line));
        assert(all[0] + end =~= s.take(n + 1));
        assert(whole.skip(1) =~= tail) by {
            assert forall|i: int| 0 <= i < tail.len() implies whole.skip(1)[i] == tail[i] by {
                assert(all[i + 1] == lines(rest)[i]);
                assert(ends[i + 1] == later[i]);
            }
        }
        assert(whole[0] == s.take(n + 1));
        assert(flattened(whole) =~= s.take(n + 1) + flattened(tail));
        assert(s.take(n + 1) + rest =~= s);
        assert forall|i: int, j: int| 0 <= i < all.len() && 0 <= j < all[i].len() implies #[trigger] all[i][j]
            != '\n' by {
            if i == 0 {
                assert(all[0][j] == s[j]);
            } else {
                assert(all[i] == lines(rest)[i - 1]);
                assert(lines(rest)[i - 1][j] != '\n');
            }
        }
        assert forall|i: int|
            #![trigger ends[i]]
            0 <= i < ends.len() implies {
            &&& ends[i].len() <= 2
                &&& ends[i].len() == 0 ==> i == ends.len() - 1 && all[i].len() > 0
                &&& ends[i].len() > 0 ==> ends[i].last() == '\n'
                &&& ends[i].len() == 2 ==> ends[i][0] == '\r'
                &&& ends[i].len() == 1 && all[i].len() > 0 ==> all[i].last() != '\r'
        } by {
            if i == 0 {
                assert(seq!['\r', '\n'].len() == 2 && seq!['\n'].len() == 1);
            } else {
                assert(all[i] == lines(rest)[i - 1]);
                assert(ends[i] == later[i - 1]);
            }
        }
        ends
    }
}

/// The lines of a text, each with what ended it, are the text: a line feed, or a carriage return and
/// a line feed, or for the last perhaps nothing. None of them holds a line feed.
pub proof fn lemma_lines_are_the_text(s: &str, res: Vec<String>) -> (ends: Seq<Seq<char>>)
    requires
        call_ensures(split_lines, (s,), res),
    ensures
        ends.len() == res@.len(),
        flattened(Seq::new(res@.len(), |i: int| res@[i]@ + ends[i])) == s@,
        forall|i: int, j: int|
            0 <= i < res@.len() && 0 <= j < res@[i]@.len() ==> #[trigger] res@[i]@[j] != '\n',
        forall|i: int|
            #![trigger ends[i]]
            0 <= i < ends.len() ==> {
                &&& ends[i].len() <= 2
                &&& ends[i].len() == 0 ==> i == ends.len() - 1 && res@[i]@.len() > 0
                &&& ends[i].len() > 0 ==> ends[i].last() == '\n'
                &&& ends[i].len() == 2 ==> ends[i][0] == '\r'
                &&& ends[i].len() == 1 && res@[i]@.len() > 0 ==> res@[i]@.last() != '\r'
            },
{
    let ends = lemma_lines(s@);
    let all = lines(s@);
    assert(texts(res@).len() == res@.len());
    assert forall|i: int| 0 <= i < res@.len() implies (#[trigger] res@[i])@ == all[i] by {
        assert(texts(res@)[i] == res@[i]@);
    }
    assert forall|i: int, j: int| 0 <= i < res@.len() && 0 <= j < res@[i]@.len() implies #[trigger] res@[i]@[j]
        != '\n' by {
        assert(res@[i]@ == all[i]);
        assert(all[i][j] != '\n');
    }
    assert(Seq::new(res@.len(), |i: int| res@[i]@ + ends[i]) =~= Seq::new(
        all.len(),
        |i: int| all[i] + ends[i],
    ));
    ends
}

/// A text in a column keeps all of its characters, at the left or the right edge; the column is
/// filled up with spaces, and is never cut.
pub proof fn lemma_columns_are_filled(s: &str, width: usize, left: String, right: String)
    requires
        call_ensures(left_column, (s, width), left),
        call_ensures(right_column, (s, width), right),
    ensures
        left@.len() == right@.len() == (if s@.len() < width {
            width as nat
        } else {
            s@.len()
        }),
        s@ == left@.take(s@.len() as int),
        forall|i: int| s@.len() <= i < left@.len() ==> #[trigger] left@[i] == ' ',
        s@ == right@.skip(right@.len() - s@.len()),
        forall|i: int| 0 <= i < right@.len() - s@.len() ==> #[trigger] right@[i] == ' ',
{
    assert(left@.take(s@.len() as int) =~= s@);
    assert(right@.skip(right@.len() - s@.len()) =~= s@);
}

} // verus!
