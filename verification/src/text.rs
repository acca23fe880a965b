//! Text handling on character sequences: whitespace trimming, splitting at
//! a separator, unsigned decimal parsing and number formatting.
use vstd::prelude::*;
use vstd::string::StringExecFns;

verus! {

/// Whether `c` is white space in Unicode's sense (the `White_Space`
/// property, as `char::is_whitespace` documents it).
pub open spec fn is_white(c: char) -> bool {
    let v = c as u32;
    ||| 9 <= v <= 13
    ||| v == 32
    ||| v == 0x85
    ||| v == 0xa0
    ||| v == 0x1680
    ||| 0x2000 <= v <= 0x200a
    ||| v == 0x2028
    ||| v == 0x2029
    ||| v == 0x202f
    ||| v == 0x205f
    ||| v == 0x3000
}

pub fn char_is_white(c: char) -> (r: bool)
    ensures
        r == is_white(c),
{
    let v = c as u32;
    (9 <= v && v <= 13) || v == 32 || v == 0x85 || v == 0xa0 || v == 0x1680 || (0x2000 <= v && v
        <= 0x200a) || v == 0x2028 || v == 0x2029 || v == 0x202f || v == 0x205f || v == 0x3000
}

/// `s` without its leading white space.
pub open spec fn trim_start(s: Seq<char>) -> Seq<char>
    decreases s.len(),
{
    if s.len() > 0 && is_white(s[0]) {
        trim_start(s.drop_first())
    } else {
        s
    }
}

/// `s` without its trailing white space.
pub open spec fn trim_end(s: Seq<char>) -> Seq<char>
    decreases s.len(),
{
    if s.len() > 0 && is_white(s.last()) {
        trim_end(s.drop_last())
    } else {
        s
    }
}

/// `s` without leading and trailing white space.
pub open spec fn trim(s: Seq<char>) -> Seq<char> {
    trim_end(trim_start(s))
}

/// The pieces of `s` between occurrences of `sep`, in order; `n`
/// separators give `n + 1` pieces, empty ones included.
pub open spec fn split_on(s: Seq<char>, sep: char) -> Seq<Seq<char>>
    decreases s.len(),
{
    if s.len() == 0 {
        seq![Seq::empty()]
    } else {
        let prior = split_on(s.drop_last(), sep);
        if s.last() == sep {
            prior.push(Seq::empty())
        } else {
            prior.update(prior.len() - 1, prior.last().push(s.last()))
        }
    }
}

pub proof fn lemma_split_on_nonempty(s: Seq<char>, sep: char)
    ensures
        split_on(s, sep).len() >= 1,
    decreases s.len(),
{
    if s.len() > 0 {
        lemma_split_on_nonempty(s.drop_last(), sep);
    }
}

/// Every character of a number's decimal digits is a digit, and there is
/// at least one.
pub proof fn lemma_decimal_digits(n: nat)
    ensures
        decimal(n).len() >= 1,
        forall|j: int| 0 <= j < decimal(n).len() ==> 48 <= (#[trigger] decimal(n)[j]) as u32 <= 57,
    decreases n,
{
    if n >= 10 {
        lemma_decimal_digits(n / 10);
        assert forall|j: int| 0 <= j < decimal(n).len() implies 48 <= (#[trigger] decimal(n)[j]) as u32 <= 57 by {
            if j < decimal(n / 10).len() {
                assert(decimal(n)[j] == decimal(n / 10)[j]);
            }
        }
    }
}

/// A text that starts and ends with other than white space is its own trim.
pub proof fn lemma_trim_plain(s: Seq<char>)
    requires
        s.len() > 0,
        !is_white(s[0]),
        !is_white(s.last()),
    ensures
        trim(s) == s,
{
}

/// Splitting text followed by a separator gives one more, empty, piece.
pub proof fn lemma_split_push_sep(x: Seq<char>, sep: char)
    ensures
        split_on(x.push(sep), sep) == split_on(x, sep).push(Seq::empty()),
{
    assert(x.push(sep).drop_last() =~= x);
}

/// Text without the separator extends the last piece.
pub proof fn lemma_split_append_plain(x: Seq<char>, b: Seq<char>, sep: char)
    requires
        forall|j: int| 0 <= j < b.len() ==> b[j] != sep,
    ensures
        split_on(x + b, sep) == split_on(x, sep).update(
            split_on(x, sep).len() - 1,
            split_on(x, sep).last() + b,
        ),
    decreases b.len(),
{
    lemma_split_on_nonempty(x, sep);
    let px = split_on(x, sep);
    if b.len() == 0 {
        assert(x + b =~= x);
        assert(px.last() + b =~= px.last());
        assert(px.update(px.len() - 1, px.last()) =~= px);
    } else {
        let b0 = b.drop_last();
        lemma_split_append_plain(x, b0, sep);
        assert((x + b).drop_last() =~= x + b0);
        assert((x + b).last() == b.last());
        let prior = split_on(x + b0, sep);
        assert(prior == px.update(px.len() - 1, px.last() + b0));
        assert((px.last() + b0).push(b.last()) =~= px.last() + b);
        assert(prior.update(prior.len() - 1, prior.last().push(b.last())) =~= px.update(
            px.len() - 1,
            px.last() + b,
        ));
    }
}

proof fn lemma_trim_start_suffix(s: Seq<char>, i: int)
    requires
        0 <= i <= s.len(),
        forall|j: int| 0 <= j < i ==> is_white(#[trigger] s[j]),
    ensures
        trim_start(s) == trim_start(s.subrange(i, s.len() as int)),
    decreases i,
{
    if i > 0 {
        assert(s.drop_first().subrange(i - 1, s.drop_first().len() as int) =~= s.subrange(
            i,
            s.len() as int,
        ));
        lemma_trim_start_suffix(s.drop_first(), i - 1);
    } else {
        assert(s.subrange(0, s.len() as int) =~= s);
    }
}

proof fn lemma_trim_end_prefix(s: Seq<char>, i: int)
    requires
        0 <= i <= s.len(),
        forall|j: int| i <= j < s.len() ==> is_white(#[trigger] s[j]),
    ensures
        trim_end(s) == trim_end(s.subrange(0, i)),
    decreases s.len() - i,
{
    if i < s.len() {
        assert(s.drop_last().subrange(0, i) =~= s.subrange(0, i));
        lemma_trim_end_prefix(s.drop_last(), i);
    } else {
        assert(s.subrange(0, i) =~= s);
    }
}

/// The characters of `s[start..end]` without leading and trailing white
/// space.
pub fn trim_chars(s: &Vec<char>, start: usize, end: usize) -> (r: Vec<char>)
    requires
        start <= end <= s.len(),
    ensures
        r@ == trim(s@.subrange(start as int, end as int)),
{
    let ghost t = s@.subrange(start as int, end as int);
    let mut a = start;
    while a < end && char_is_white(s[a])
        invariant
            start <= a <= end <= s.len(),
            t == s@.subrange(start as int, end as int),
            forall|j: int| 0 <= j < a - start ==> is_white(#[trigger] t[j]),
        decreases end - a,
    {
        a = a + 1;
    }
    proof {
        lemma_trim_start_suffix(t, a - start);
        assert(t.subrange(a - start, t.len() as int) =~= s@.subrange(a as int, end as int));
        if a < end {
            assert(!is_white(s@[a as int]));
        }
    }
    let ghost u = s@.subrange(a as int, end as int);
    assert(trim_start(t) == u) by {
        if u.len() > 0 {
            assert(u[0] == s@[a as int]);
        }
    }
    let mut b = end;
    while b > a && char_is_white(s[b - 1])
        invariant
            start <= a <= b <= end <= s.len(),
            u == s@.subrange(a as int, end as int),
            forall|j: int| b - a <= j < u.len() ==> is_white(#[trigger] u[j]),
        decreases b - a,
    {
        b = b - 1;
    }
    proof {
        lemma_trim_end_prefix(u, b - a);
        assert(u.subrange(0, b - a) =~= s@.subrange(a as int, b as int));
    }
    let mut r: Vec<char> = Vec::new();
    let mut i = a;
    while i < b
        invariant
            a <= i <= b <= s.len(),
            r@ == s@.subrange(a as int, i as int),
        decreases b - i,
    {
        r.push(s[i]);
        i = i + 1;
        assert(r@ =~= s@.subrange(a as int, i as int));
    }
    proof {
        let w = s@.subrange(a as int, b as int);
        if w.len() > 0 {
            assert(w.last() == s@[b - 1]);
        }
    }
    r
}

/// The pieces of `s` between occurrences of `sep`.
pub fn split_chars(s: &Vec<char>, sep: char) -> (r: Vec<Vec<char>>)
    ensures
        r@.map_values(|p: Vec<char>| p@) == split_on(s@, sep),
{
    let mut done: Vec<Vec<char>> = Vec::new();
    let mut cur: Vec<char> = Vec::new();
    let mut i: usize = 0;
    assert(s@.take(0) =~= Seq::<char>::empty());
    while i < s.len()
        invariant
            i <= s.len(),
            done@.map_values(|p: Vec<char>| p@).push(cur@) == split_on(s@.take(i as int), sep),
        decreases s.len() - i,
    {
        let ghost prior = split_on(s@.take(i as int), sep);
        assert(s@.take(i as int + 1).drop_last() =~= s@.take(i as int));
        if s[i] == sep {
            let mut fresh: Vec<char> = Vec::new();
            std::mem::swap(&mut fresh, &mut cur);
            done.push(fresh);
            assert(done@.map_values(|p: Vec<char>| p@).push(cur@) =~= prior.push(Seq::empty()));
        } else {
            let ghost old_done = done@.map_values(|p: Vec<char>| p@);
            cur.push(s[i]);
            assert(done@.map_values(|p: Vec<char>| p@).push(cur@) =~= prior.update(
                prior.len() - 1,
                prior.last().push(s@[i as int]),
            ));
        }
        i = i + 1;
    }
    let ghost before = done@.map_values(|p: Vec<char>| p@);
    let ghost last = cur@;
    done.push(cur);
    assert(done@.map_values(|p: Vec<char>| p@) =~= before.push(last));
    assert(s@.take(s.len() as int) =~= s@);
    done
}

/// The characters of a text.
pub fn text_chars(t: &str) -> (r: Vec<char>)
    ensures
        r@ == t@,
{
    let mut r: Vec<char> = Vec::new();
    for c in it: t.chars()
        invariant
            r@ == it.seq().take(it.index()),
            it.seq() == t@,
    {
        r.push(c);
        assert(r@ =~= it.seq().take(it.index() + 1));
    }
    assert(t@.take(t@.len() as int) =~= t@);
    r
}

/// Appends one character with `String::push`.
#[verifier::external_body]
pub fn push_char(s: &mut String, c: char)
    ensures
        final(s)@ == old(s)@.push(c),
{
    s.push(c);
}

/// Appends `v[start..end]`.
pub fn push_chars(s: &mut String, v: &Vec<char>, start: usize, end: usize)
    requires
        start <= end <= v.len(),
    ensures
        final(s)@ == old(s)@ + v@.subrange(start as int, end as int),
{
    let mut i = start;
    while i < end
        invariant
            start <= i <= end <= v.len(),
            s@ == old(s)@ + v@.subrange(start as int, i as int),
        decreases end - i,
    {
        push_char(s, v[i]);
        i = i + 1;
        assert(s@ =~= old(s)@ + v@.subrange(start as int, i as int));
    }
}

/// Whether `needle` occurs in `hay` at position `i`.
pub open spec fn occurs_at(hay: Seq<char>, needle: Seq<char>, i: int) -> bool {
    0 <= i && i + needle.len() <= hay.len() && hay.subrange(i, i + needle.len()) == needle
}

/// Whether `needle` occurs in `hay` at position `at`.
pub fn matches_at(hay: &Vec<char>, needle: &Vec<char>, at: usize) -> (r: bool)
    ensures
        r == occurs_at(hay@, needle@, at as int),
{
    if at > hay.len() || needle.len() > hay.len() - at {
        return false;
    }
    let mut k: usize = 0;
    while k < needle.len()
        invariant
            at + needle.len() <= hay.len(),
            k <= needle.len(),
            forall|j: int| 0 <= j < k ==> hay@[at + j] == needle@[j],
        decreases needle.len() - k,
    {
        if hay[at + k] != needle[k] {
            assert(hay@.subrange(at as int, at + needle.len())[k as int] != needle@[k as int]);
            return false;
        }
        k = k + 1;
    }
    assert(hay@.subrange(at as int, at + needle.len()) =~= needle@);
    true
}

/// Whether two character sequences are equal.
pub fn chars_equal(a: &Vec<char>, b: &Vec<char>) -> (r: bool)
    ensures
        r == (a@ == b@),
{
    if a.len() != b.len() {
        return false;
    }
    let r = matches_at(a, b, 0);
    proof {
        if r {
            assert(a@.subrange(0, b@.len() as int) =~= a@);
        } else {
            assert(a@.subrange(0, b@.len() as int) =~= a@);
        }
    }
    r
}

/// The characters of a string literal or other text.
pub fn str_chars(t: &str) -> (r: Vec<char>)
    ensures
        r@ == t@,
{
    text_chars(t)
}

/// Why a decimal number could not be read, as `u64::from_str` reports it.
#[derive(Clone, Copy, Debug, PartialEq, Eq, Structural)]
pub enum NumberError {
    Empty,
    InvalidDigit,
    Overflow,
}

impl NumberError {
    /// The message `std` gives for this kind of failure.
    pub fn to_string(&self) -> (r: String)
        ensures
            r@ == self.message(),
    {
        match self {
            NumberError::Empty => "cannot parse integer from empty string".to_string(),
            NumberError::InvalidDigit => "invalid digit found in string".to_string(),
            NumberError::Overflow => "number too large to fit in target type".to_string(),
        }
    }

    pub open spec fn message(self) -> Seq<char> {
        match self {
            NumberError::Empty => "cannot parse integer from empty string"@,
            NumberError::InvalidDigit => "invalid digit found in string"@,
            NumberError::Overflow => "number too large to fit in target type"@,
        }
    }
}

pub open spec fn is_digit(c: char) -> bool {
    48 <= (c as u32) <= 57
}

pub open spec fn digit_value(c: char) -> nat {
    ((c as u32) - 48) as nat
}

/// Reads decimal digits left to right onto `acc`, failing at the first
/// character that is no digit or at the first digit that takes the value
/// past `max`.
pub open spec fn parse_digits(ds: Seq<char>, acc: nat, max: nat) -> Result<nat, NumberError>
    decreases ds.len(),
{
    if ds.len() == 0 {
        Ok(acc)
    } else if !is_digit(ds[0]) {
        Err(NumberError::InvalidDigit)
    } else {
        let next = acc * 10 + digit_value(ds[0]);
        if next > max {
            Err(NumberError::Overflow)
        } else {
            parse_digits(ds.drop_first(), next, max)
        }
    }
}

/// An unsigned decimal number of at most `max`, with an optional leading
/// `+`.
pub open spec fn parse_unsigned(s: Seq<char>, max: nat) -> Result<nat, NumberError> {
    if s.len() == 0 {
        Err(NumberError::Empty)
    } else if s[0] == '+' {
        if s.len() == 1 {
            Err(NumberError::InvalidDigit)
        } else {
            parse_digits(s.drop_first(), 0, max)
        }
    } else {
        parse_digits(s, 0, max)
    }
}

proof fn lemma_parse_digits_bound(ds: Seq<char>, acc: nat, max: nat)
    ensures
        parse_digits(ds, acc, max) matches Ok(v) ==> v <= max || (ds.len() == 0 && v == acc),
    decreases ds.len(),
{
    if ds.len() > 0 && is_digit(ds[0]) {
        let next = acc * 10 + digit_value(ds[0]);
        if next <= max {
            lemma_parse_digits_bound(ds.drop_first(), next, max);
        }
    }
}

proof fn lemma_parse_digits_push(ds: Seq<char>, c: char, acc: nat, max: nat, v: nat)
    requires
        parse_digits(ds, acc, max) == Ok::<nat, NumberError>(v),
        is_digit(c),
        v * 10 + digit_value(c) <= max,
    ensures
        parse_digits(ds.push(c), acc, max) == Ok::<nat, NumberError>(v * 10 + digit_value(c)),
    decreases ds.len(),
{
    let dc = ds.push(c);
    assert(dc[0] == if ds.len() == 0 { c } else { ds[0] });
    if ds.len() == 0 {
        assert(v == acc);
        assert(dc.drop_first() =~= Seq::<char>::empty());
        assert(parse_digits(dc.drop_first(), acc * 10 + digit_value(c), max) == Ok::<nat, NumberError>(
            acc * 10 + digit_value(c),
        ));
    } else {
        let next = acc * 10 + digit_value(ds[0]);
        assert(is_digit(ds[0]) && next <= max);
        assert(parse_digits(ds.drop_first(), next, max) == Ok::<nat, NumberError>(v));
        assert(dc.drop_first() =~= ds.drop_first().push(c));
        lemma_parse_digits_push(ds.drop_first(), c, next, max, v);
    }
}

/// The digits of a number read back as that number.
pub proof fn lemma_parse_decimal(n: nat, max: nat)
    requires
        n <= max,
    ensures
        parse_digits(decimal(n), 0, max) == Ok::<nat, NumberError>(n),
        decimal(n).len() > 0,
        is_digit(decimal(n)[0]),
    decreases n,
{
    if n < 10 {
        assert(digit_value(digit_char(n)) == n);
        assert(decimal(n).drop_first() =~= Seq::<char>::empty());
        assert(parse_digits(decimal(n).drop_first(), n, max) == Ok::<nat, NumberError>(n));
    } else {
        lemma_parse_decimal(n / 10, max);
        assert(digit_value(digit_char(n % 10)) == n % 10);
        lemma_parse_digits_push(decimal(n / 10), digit_char(n % 10), 0, max, n / 10);
        assert(decimal(n)[0] == decimal(n / 10)[0]);
    }
}

/// Reads an unsigned decimal number of at most `max`.
pub fn parse_unsigned_chars(s: &Vec<char>, max: u64) -> (r: Result<u64, NumberError>)
    ensures
        match parse_unsigned(s@, max as nat) {
            Ok(v) => v <= max && r == Ok::<u64, NumberError>(v as u64),
            Err(e) => r == Err::<u64, NumberError>(e),
        },
        r matches Ok(v) ==> v <= max,
{
    if s.len() == 0 {
        return Err(NumberError::Empty);
    }
    let mut i: usize = 0;
    if s[0] == '+' {
        if s.len() == 1 {
            return Err(NumberError::InvalidDigit);
        }
        i = 1;
    }
    let ghost ds = s@.skip(i as int);
    proof {
        if i == 1 {
            assert(ds =~= s@.drop_first());
        } else {
            assert(ds =~= s@);
        }
    }
    let mut acc: u64 = 0;
    while i < s.len()
        invariant
            1 <= s.len(),
            i <= s.len(),
            acc <= max,
            parse_digits(ds, 0, max as nat) == parse_digits(s@.skip(i as int), acc as nat, max as nat),
            ds == parse_unsigned_digits(s@),
            parse_unsigned(s@, max as nat) == parse_digits(ds, 0, max as nat),
        decreases s.len() - i,
    {
        let c = s[i];
        assert(s@.skip(i as int)[0] == c);
        assert(s@.skip(i as int).drop_first() =~= s@.skip(i as int + 1));
        let v = c as u32;
        if !(48 <= v && v <= 57) {
            return Err(NumberError::InvalidDigit);
        }
        let next: u128 = (acc as u128) * 10 + ((v - 48) as u128);
        if next > max as u128 {
            return Err(NumberError::Overflow);
        }
        acc = next as u64;
        i = i + 1;
    }
    assert(s@.skip(i as int) =~= Seq::<char>::empty());
    proof {
        lemma_parse_digits_bound(ds, 0, max as nat);
    }
    Ok(acc)
}

/// The digits that `parse_unsigned` reads: all of `s`, or all but a
/// leading `+`.
pub open spec fn parse_unsigned_digits(s: Seq<char>) -> Seq<char> {
    if s.len() > 0 && s[0] == '+' {
        s.drop_first()
    } else {
        s
    }
}

/// The decimal digits of `n`, most significant first.
pub open spec fn decimal(n: nat) -> Seq<char>
    decreases n,
{
    if n < 10 {
        seq![digit_char(n)]
    } else {
        decimal(n / 10).push(digit_char(n % 10))
    }
}

pub open spec fn digit_char(d: nat) -> char {
    if d < 10 {
        (d + 48) as char
    } else {
        (d + 87) as char
    }
}

fn digit_str(d: u64) -> (r: &'static str)
    requires
        d < 16,
    ensures
        r@ == seq![digit_char(d as nat)],
{
    proof {
        reveal_strlit("0");
        reveal_strlit("1");
        reveal_strlit("2");
        reveal_strlit("3");
        reveal_strlit("4");
        reveal_strlit("5");
        reveal_strlit("6");
        reveal_strlit("7");
        reveal_strlit("8");
        reveal_strlit("9");
        reveal_strlit("a");
        reveal_strlit("b");
        reveal_strlit("c");
        reveal_strlit("d");
        reveal_strlit("e");
        reveal_strlit("f");
    }
    match d {
        0 => "0",
        1 => "1",
        2 => "2",
        3 => "3",
        4 => "4",
        5 => "5",
        6 => "6",
        7 => "7",
        8 => "8",
        9 => "9",
        10 => "a",
        11 => "b",
        12 => "c",
        13 => "d",
        14 => "e",
        _ => "f",
    }
}

/// Appends the decimal digits of `n`.
pub fn push_decimal(s: &mut String, n: u64)
    ensures
        final(s)@ == old(s)@ + decimal(n as nat),
    decreases n,
{
    if n >= 10 {
        push_decimal(s, n / 10);
    }
    s.append(digit_str(n % 10));
}

/// The lowest `width` hexadecimal digits of `n` (lower case, zero padded),
/// most significant first.
pub open spec fn hex_digits(n: nat, width: nat) -> Seq<char>
    decreases width,
{
    if width == 0 {
        Seq::empty()
    } else {
        hex_digits(n / 16, (width - 1) as nat).push(digit_char(n % 16))
    }
}

/// Appends the lowest `width` hexadecimal digits of `n`.
pub fn push_hex(s: &mut String, n: u64, width: u64)
    ensures
        final(s)@ == old(s)@ + hex_digits(n as nat, width as nat),
    decreases width,
{
    if width > 0 {
        push_hex(s, n / 16, width - 1);
        s.append(digit_str(n % 16));
    } else {
        assert(old(s)@ + hex_digits(n as nat, 0) =~= old(s)@);
    }
}

} // verus!
