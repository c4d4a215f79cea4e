//! Text primitives shared by the readers of the kernel's interfaces:
//! Unicode whitespace, word and line splitting, trimming, substring search
//! and the decimal integer syntax accepted by `str::parse`.

use vstd::prelude::*;

verus! {

// ---------------------------------------------------------------------------
// Characters
// ---------------------------------------------------------------------------

/// The Unicode `White_Space` property, which `char::is_whitespace`,
/// `str::split_whitespace` and `str::trim` go by.
pub open spec fn is_white(c: char) -> bool {
    let u = c as int;
    ||| 0x09 <= u <= 0x0D
    ||| u == 0x20
    ||| u == 0x85
    ||| u == 0xA0
    ||| u == 0x1680
    ||| 0x2000 <= u <= 0x200A
    ||| u == 0x2028
    ||| u == 0x2029
    ||| u == 0x202F
    ||| u == 0x205F
    ||| u == 0x3000
}

/// Whether `c` has the Unicode `White_Space` property.
pub fn is_whitespace(c: char) -> (r: bool)
    ensures
        r == is_white(c),
{
    let u = c as u32;
    (0x09 <= u && u <= 0x0D) || u == 0x20 || u == 0x85 || u == 0xA0 || u == 0x1680 || (0x2000
        <= u && u <= 0x200A) || u == 0x2028 || u == 0x2029 || u == 0x202F || u == 0x205F || u
        == 0x3000
}

/// An ASCII decimal digit.
pub open spec fn is_digit(c: char) -> bool {
    48 <= c as int <= 57
}

/// The value of `c` where it is an ASCII digit.
pub fn digit_of(c: char) -> (r: Option<u32>)
    ensures
        r is Some <==> is_digit(c),
        r matches Some(d) ==> d == digit_value(c),
{
    let u = c as u32;
    if 48 <= u && u <= 57 {
        Some(u - 48)
    } else {
        None
    }
}

/// The number that the ASCII digit `c` stands for.
pub open spec fn digit_value(c: char) -> int {
    c as int - 48
}

/// The ASCII digit that stands for `d`, for `d` in `0..10`.
pub open spec fn digit_char(d: int) -> char {
    (d + 48) as char
}

/// The characters of `s`, in order.
pub fn chars_of(s: &str) -> (res: Vec<char>)
    ensures
        res@ == s@,
{
    let mut res: Vec<char> = Vec::new();
    for c in it: s.chars()
        invariant
            res@ == it.seq().take(it.index() as int),
    {
        res.push(c);
    }
    res
}

/// The contents of each vector, in order.
pub open spec fn views(v: Seq<Vec<char>>) -> Seq<Seq<char>> {
    v.map_values(|w: Vec<char>| w@)
}

proof fn lemma_views_push(v: Seq<Vec<char>>, w: Vec<char>)
    ensures
        views(v.push(w)) == views(v).push(w@),
{
    assert(views(v.push(w)) =~= views(v).push(w@));
}

// ---------------------------------------------------------------------------
// Words: `str::split_whitespace`
// ---------------------------------------------------------------------------

/// Reading `s` from the left: the words already closed by whitespace, and
/// the word still being read.
pub open spec fn words_state(s: Seq<char>) -> (Seq<Seq<char>>, Seq<char>)
    decreases s.len(),
{
    if s.len() == 0 {
        (seq![], seq![])
    } else {
        let (done, cur) = words_state(s.drop_last());
        let c = s.last();
        if is_white(c) {
            if cur.len() > 0 {
                (done.push(cur), seq![])
            } else {
                (done, cur)
            }
        } else {
            (done, cur.push(c))
        }
    }
}

/// The maximal runs of non-whitespace characters of `s`, in order: what
/// `str::split_whitespace` yields.
pub open spec fn words(s: Seq<char>) -> Seq<Seq<char>> {
    let (done, cur) = words_state(s);
    if cur.len() > 0 {
        done.push(cur)
    } else {
        done
    }
}

/// The words of `s`, as `str::split_whitespace` yields them.
pub fn split_words(s: &Vec<char>) -> (res: Vec<Vec<char>>)
    ensures
        views(res@) == words(s@),
{
    let mut done: Vec<Vec<char>> = Vec::new();
    let mut cur: Vec<char> = Vec::new();
    let mut i: usize = 0;
    while i < s.len()
        invariant
            i <= s.len(),
            (views(done@), cur@) == words_state(s@.take(i as int)),
        decreases s.len() - i,
    {
        let c = s[i];
        assert(s@.take(i + 1).drop_last() =~= s@.take(i as int));
        assert(s@.take(i + 1).last() == c);
        if is_whitespace(c) {
            if cur.len() > 0 {
                proof {
                    lemma_views_push(done@, cur);
                }
                done.push(cur);
                cur = Vec::new();
            }
        } else {
            cur.push(c);
        }
        i += 1;
    }
    assert(s@.take(s.len() as int) =~= s@);
    if cur.len() > 0 {
        proof {
            lemma_views_push(done@, cur);
        }
        done.push(cur);
    }
    done
}

// ---------------------------------------------------------------------------
// Lines: `str::split("\n")`
// ---------------------------------------------------------------------------

/// Reading `s` from the left: the pieces already closed by a `'\n'`, and the
/// piece still being read.
pub open spec fn lines_state(s: Seq<char>) -> (Seq<Seq<char>>, Seq<char>)
    decreases s.len(),
{
    if s.len() == 0 {
        (seq![], seq![])
    } else {
        let (done, cur) = lines_state(s.drop_last());
        let c = s.last();
        if c == '\n' {
            (done.push(cur), seq![])
        } else {
            (done, cur.push(c))
        }
    }
}

/// The pieces of `s` between the `'\n'` characters, the empty ones
/// included: what `str::split("\n")` yields.
pub open spec fn lines(s: Seq<char>) -> Seq<Seq<char>> {
    let (done, cur) = lines_state(s);
    done.push(cur)
}

/// The pieces of `s` between its newlines, as `str::split("\n")` yields them.
pub fn split_lines(s: &Vec<char>) -> (res: Vec<Vec<char>>)
    ensures
        views(res@) == lines(s@),
{
    let mut done: Vec<Vec<char>> = Vec::new();
    let mut cur: Vec<char> = Vec::new();
    let mut i: usize = 0;
    while i < s.len()
        invariant
            i <= s.len(),
            (views(done@), cur@) == lines_state(s@.take(i as int)),
        decreases s.len() - i,
    {
        let c = s[i];
        assert(s@.take(i + 1).drop_last() =~= s@.take(i as int));
        assert(s@.take(i + 1).last() == c);
        if c == '\n' {
            proof {
                lemma_views_push(done@, cur);
            }
            done.push(cur);
            cur = Vec::new();
        } else {
            cur.push(c);
        }
        i += 1;
    }
    assert(s@.take(s.len() as int) =~= s@);
    proof {
        lemma_views_push(done@, cur);
    }
    done.push(cur);
    done
}


// ---------------------------------------------------------------------------
// Trimming: `str::trim`
// ---------------------------------------------------------------------------

/// `s` without its leading whitespace.
pub open spec fn trim_start(s: Seq<char>) -> Seq<char>
    decreases s.len(),
{
    if s.len() > 0 && is_white(s[0]) {
        trim_start(s.drop_first())
    } else {
        s
    }
}

/// `s` without its trailing whitespace.
pub open spec fn trim_end(s: Seq<char>) -> Seq<char>
    decreases s.len(),
{
    if s.len() > 0 && is_white(s.last()) {
        trim_end(s.drop_last())
    } else {
        s
    }
}

/// `s` without leading and trailing whitespace: what `str::trim` returns.
pub open spec fn trim(s: Seq<char>) -> Seq<char> {
    trim_end(trim_start(s))
}

/// The characters of `s` without leading and trailing whitespace.
pub fn trimmed(s: &Vec<char>) -> (res: Vec<char>)
    ensures
        res@ == trim(s@),
{
    let n = s.len();
    let mut a: usize = 0;
    assert(s@.subrange(0, n as int) =~= s@);
    while a < n && is_whitespace(s[a])
        invariant
            a <= n,
            n == s.len(),
            trim_start(s@) == trim_start(s@.subrange(a as int, n as int)),
        decreases n - a,
    {
        assert(s@.subrange(a as int, n as int).drop_first() =~= s@.subrange(a + 1, n as int));
        a += 1;
    }
    assert(s@.subrange(0, n as int) =~= s@);
    let mut b: usize = n;
    while b > a && is_whitespace(s[b - 1])
        invariant
            a <= b <= n,
            n == s.len(),
            trim_start(s@) == s@.subrange(a as int, n as int),
            trim(s@) == trim_end(s@.subrange(a as int, b as int)),
        decreases b,
    {
        assert(s@.subrange(a as int, b as int).drop_last() =~= s@.subrange(a as int, b - 1));
        b -= 1;
    }
    let mut res: Vec<char> = Vec::new();
    let mut k: usize = a;
    while k < b
        invariant
            a <= k <= b <= n,
            n == s.len(),
            res@ == s@.subrange(a as int, k as int),
        decreases b - k,
    {
        res.push(s[k]);
        assert(res@ =~= s@.subrange(a as int, k + 1));
        k += 1;
    }
    res
}

// ---------------------------------------------------------------------------
// Substrings: `str::contains` and `str::starts_with`
// ---------------------------------------------------------------------------

/// `needle` occurs in `s` at index `i`.
pub open spec fn occurs_at(s: Seq<char>, needle: Seq<char>, i: int) -> bool {
    0 <= i && i + needle.len() <= s.len() && s.subrange(i, i + needle.len()) == needle
}

/// `needle` occurs somewhere in `s`.
pub open spec fn contains(s: Seq<char>, needle: Seq<char>) -> bool {
    exists|i: int| occurs_at(s, needle, i)
}

/// Whether `needle` occurs in `s` at index `i`.
fn matches_at(s: &Vec<char>, needle: &Vec<char>, i: usize) -> (r: bool)
    requires
        i + needle.len() <= s.len(),
    ensures
        r == occurs_at(s@, needle@, i as int),
{
    let mut k: usize = 0;
    while k < needle.len()
        invariant
            k <= needle.len(),
            i + needle.len() <= s.len(),
            forall|j: int| 0 <= j < k ==> s@[i + j] == needle@[j],
        decreases needle.len() - k,
    {
        if s[i + k] != needle[k] {
            assert(s@.subrange(i as int, i + needle.len())[k as int] != needle@[k as int]);
            return false;
        }
        k += 1;
    }
    assert(s@.subrange(i as int, i + needle.len()) =~= needle@);
    true
}

/// Whether `needle` occurs in `s`: `str::contains`.
pub fn contains_seq(s: &Vec<char>, needle: &Vec<char>) -> (r: bool)
    ensures
        r == contains(s@, needle@),
{
    if needle.len() == 0 {
        assert(s@.subrange(0, 0) =~= needle@);
        assert(occurs_at(s@, needle@, 0));
        return true;
    }
    if needle.len() > s.len() {
        assert forall|i: int| !occurs_at(s@, needle@, i) by {}
        return false;
    }
    let last = s.len() - needle.len();
    let mut i: usize = 0;
    while i <= last
        invariant
            last + needle.len() == s.len(),
            needle.len() >= 1,
            forall|j: int| 0 <= j < i ==> !occurs_at(s@, needle@, j),
        decreases last + 1 - i,
    {
        if matches_at(s, needle, i) {
            return true;
        }
        i += 1;
    }
    assert forall|j: int| !occurs_at(s@, needle@, j) by {
        if 0 <= j < i {
        }
    }
    false
}

/// Whether `s` begins with `prefix`: `str::starts_with`.
pub fn starts_with_seq(s: &Vec<char>, prefix: &Vec<char>) -> (r: bool)
    ensures
        r == (prefix.len() <= s.len() && s@.take(prefix.len() as int) == prefix@),
{
    if prefix.len() > s.len() {
        return false;
    }
    let r = matches_at(s, prefix, 0);
    assert(s@.subrange(0, prefix.len() as int) =~= s@.take(prefix.len() as int));
    r
}

// ---------------------------------------------------------------------------
// Decimal integers: `str::parse::<usize>` and `str::parse::<i32>`
// ---------------------------------------------------------------------------

/// Every character of `s` is an ASCII digit.
pub open spec fn all_digits(s: Seq<char>) -> bool {
    forall|i: int| 0 <= i < s.len() ==> is_digit(#[trigger] s[i])
}

/// The number that the digits `s` stand for, most significant first.
pub open spec fn digits_value(s: Seq<char>) -> nat
    decreases s.len(),
{
    if s.len() == 0 {
        0
    } else {
        (digits_value(s.drop_last()) * 10 + digit_value(s.last())) as nat
    }
}

/// The digits of `s` once an optional leading `+` is taken off.
pub open spec fn unsigned_digits(s: Seq<char>) -> Seq<char> {
    if s.len() > 0 && s[0] == '+' {
        s.drop_first()
    } else {
        s
    }
}

/// `s` is accepted by `str::parse::<usize>`: an optional `+`, then one
/// digit or more, with a value that fits.
pub open spec fn parses_as_usize(s: Seq<char>) -> bool {
    let d = unsigned_digits(s);
    &&& d.len() > 0
    &&& all_digits(d)
    &&& digits_value(d) <= usize::MAX
}

/// What `str::parse::<usize>` gives for `s`, where it accepts it.
pub open spec fn usize_value(s: Seq<char>) -> int {
    digits_value(unsigned_digits(s)) as int
}

/// Whether `s` starts with a `-`, which makes it negative.
pub open spec fn is_negative_text(s: Seq<char>) -> bool {
    s.len() > 0 && s[0] == '-'
}

/// The digits of `s` once an optional leading `+` or `-` is taken off.
pub open spec fn signed_digits(s: Seq<char>) -> Seq<char> {
    if s.len() > 0 && (s[0] == '+' || s[0] == '-') {
        s.drop_first()
    } else {
        s
    }
}

/// The signed number that `s` writes, whether it fits or not.
pub open spec fn signed_value(s: Seq<char>) -> int {
    if is_negative_text(s) {
        -digits_value(signed_digits(s))
    } else {
        digits_value(signed_digits(s)) as int
    }
}

/// `s` is accepted by `str::parse::<i32>`: an optional sign, then one digit
/// or more, with a value that fits.
pub open spec fn parses_as_i32(s: Seq<char>) -> bool {
    let d = signed_digits(s);
    &&& d.len() > 0
    &&& all_digits(d)
    &&& i32::MIN <= signed_value(s) <= i32::MAX
}

/// A longer run of digits is worth at least as much as its prefix.
pub proof fn lemma_digits_prefix_le(s: Seq<char>, k: int)
    requires
        all_digits(s),
        0 <= k <= s.len(),
    ensures
        digits_value(s.take(k)) <= digits_value(s),
    decreases s.len(),
{
    if k < s.len() {
        let t = s.drop_last();
        assert(t.take(k) =~= s.take(k));
        assert(all_digits(t)) by {
            assert forall|i: int| 0 <= i < t.len() implies is_digit(#[trigger] t[i]) by {
                assert(t[i] == s[i]);
            }
        }
        lemma_digits_prefix_le(t, k);
        assert(is_digit(s[s.len() - 1]));
    } else {
        assert(s.take(k) =~= s);
    }
}

/// The value of the digits `s[start..]`, where they are one digit or more
/// and worth at most `bound`.
fn parse_digits(s: &Vec<char>, start: usize, bound: u64) -> (r: Option<u64>)
    requires
        start <= s.len(),
    ensures
        r is Some <==> (start < s.len() && all_digits(s@.skip(start as int)) && digits_value(
            s@.skip(start as int),
        ) <= bound),
        r matches Some(v) ==> v == digits_value(s@.skip(start as int)),
{
    let ghost d = s@.skip(start as int);
    if start == s.len() {
        return None;
    }
    let mut acc: u64 = 0;
    let mut i: usize = start;
    while i < s.len()
        invariant
            start <= i <= s.len(),
            d == s@.skip(start as int),
            d.take(i - start) == s@.subrange(start as int, i as int),
            all_digits(s@.subrange(start as int, i as int)),
            acc == digits_value(s@.subrange(start as int, i as int)),
            acc <= bound,
        decreases s.len() - i,
    {
        let c = s[i];
        let u = match digit_of(c) {
            Some(u) => u,
            None => {
                assert(d[i - start] == c);
                return None;
            },
        };
        let ghost prev = s@.subrange(start as int, i as int);
        let ghost next = s@.subrange(start as int, i + 1);
        assert(next.drop_last() =~= prev);
        assert(next.last() == c);
        assert(is_digit(c));
        assert(all_digits(next)) by {
            assert forall|j: int| 0 <= j < next.len() implies is_digit(#[trigger] next[j]) by {
                if j < prev.len() {
                    assert(next[j] == prev[j]);
                } else {
                    assert(next[j] == c);
                }
            }
        }
        assert(d.take(i + 1 - start) =~= next);
        let step = match acc.checked_mul(10) {
            Some(m) => m.checked_add(u as u64),
            None => None,
        };
        match step {
            Some(v) if v <= bound => {
                acc = v;
            },
            _ => {
                proof {
                    if all_digits(d) {
                        lemma_digits_prefix_le(d, i + 1 - start);
                    }
                }
                return None;
            },
        }
        i += 1;
    }
    assert(s@.subrange(start as int, s.len() as int) =~= d);
    Some(acc)
}

/// What `str::parse::<usize>` gives for `s`: `None` where it fails.
pub fn parse_usize(s: &Vec<char>) -> (r: Option<usize>)
    ensures
        r is Some <==> parses_as_usize(s@),
        r matches Some(v) ==> v == usize_value(s@),
{
    let start: usize = if s.len() > 0 && s[0] == '+' {
        1
    } else {
        0
    };
    assert(unsigned_digits(s@) =~= s@.skip(start as int));
    match parse_digits(s, start, usize::MAX as u64) {
        Some(v) => Some(v as usize),
        None => None,
    }
}

/// What `str::parse::<i32>` gives for `s`: `None` where it fails.
pub fn parse_i32(s: &Vec<char>) -> (r: Option<i32>)
    ensures
        r is Some <==> parses_as_i32(s@),
        r matches Some(v) ==> v == signed_value(s@),
{
    let negative = s.len() > 0 && s[0] == '-';
    let start: usize = if s.len() > 0 && (s[0] == '+' || s[0] == '-') {
        1
    } else {
        0
    };
    assert(signed_digits(s@) =~= s@.skip(start as int));
    let bound: u64 = if negative {
        2147483648
    } else {
        2147483647
    };
    match parse_digits(s, start, bound) {
        Some(v) => {
            if negative {
                Some((0 - (v as i64)) as i32)
            } else {
                Some(v as i32)
            }
        },
        None => None,
    }
}

// ---------------------------------------------------------------------------
// Decimal rendering: `format!("{}", n)` for unsigned integers
// ---------------------------------------------------------------------------

/// The decimal digits of `n`, most significant first, without leading zeros.
pub open spec fn decimal_chars(n: nat) -> Seq<char>
    decreases n,
{
    if n < 10 {
        seq![digit_char(n as int)]
    } else {
        decimal_chars(n / 10).push(digit_char((n % 10) as int))
    }
}

/// Reading back the digits of `n` gives `n`.
pub proof fn lemma_decimal_chars_value(n: nat)
    ensures
        decimal_chars(n).len() > 0,
        all_digits(decimal_chars(n)),
        digits_value(decimal_chars(n)) == n,
    decreases n,
{
    assert(digit_char((n % 10) as int) as int == n % 10 + 48);
    if n >= 10 {
        lemma_decimal_chars_value(n / 10);
        let s = decimal_chars(n);
        assert(s.drop_last() =~= decimal_chars(n / 10));
        assert forall|i: int| 0 <= i < s.len() implies is_digit(#[trigger] s[i]) by {
            if i < s.len() - 1 {
                assert(s[i] == decimal_chars(n / 10)[i]);
            }
        }
        assert(s.last() == digit_char((n % 10) as int));
        assert(digits_value(s) == digits_value(decimal_chars(n / 10)) * 10 + n % 10);
    } else {
        assert(decimal_chars(n).drop_last() =~= Seq::<char>::empty());
        assert(n % 10 == n);
        assert(digits_value(Seq::<char>::empty()) == 0);
        assert(digits_value(decimal_chars(n)) == digit_value(digit_char(n as int)));
    }
}

/// Appends `c` to `s`: `String::push`.
#[verifier::external_body]
pub(crate) fn push_char(s: &mut String, c: char)
    ensures
        final(s)@ == old(s)@.push(c),
{
    s.push(c)
}

/// The decimal digits of `n`, as `format!("{}", n)` writes them.
pub fn format_decimal(n: usize) -> (r: String)
    ensures
        r@ == decimal_chars(n as nat),
{
    // The digits, least significant first.
    let mut rev: Vec<char> = Vec::new();
    let mut m: usize = n;
    while m >= 10
        invariant
            decimal_chars(n as nat) == decimal_chars(m as nat) + rev@.reverse(),
        decreases m,
    {
        let c = (((m % 10) as u32 + 48) as u8) as char;
        assert(c == digit_char((m % 10) as int));
        let ghost before = rev@;
        rev.push(c);
        assert(decimal_chars(m as nat) == decimal_chars((m / 10) as nat).push(c));
        assert(rev@.reverse() =~= seq![c] + before.reverse());
        assert(decimal_chars(n as nat) =~= decimal_chars((m / 10) as nat) + rev@.reverse());
        m = m / 10;
    }
    let c = ((m as u32 + 48) as u8) as char;
    assert(decimal_chars(m as nat) =~= seq![c]);
    let ghost before = rev@;
    rev.push(c);
    assert(rev@.reverse() =~= seq![c] + before.reverse());
    let mut r = String::new();
    let mut k: usize = rev.len();
    while k > 0
        invariant
            k <= rev.len(),
            decimal_chars(n as nat) =~= rev@.reverse(),
            r@ == rev@.subrange(k as int, rev.len() as int).reverse(),
        decreases k,
    {
        k -= 1;
        push_char(&mut r, rev[k]);
        assert(rev@.subrange(k as int, rev.len() as int).reverse() =~= rev@.subrange(
            k + 1,
            rev.len() as int,
        ).reverse().push(rev@[k as int]));
    }
    assert(rev@.subrange(0, rev.len() as int) =~= rev@);
    r
}


// ---------------------------------------------------------------------------
// Paths: `Path::join` with a relative name
// ---------------------------------------------------------------------------

/// `name` appended to the directory `base`, with a `/` between them where
/// `base` is not empty and does not end with one: what `Path::join` gives
/// for a relative `name` on Unix.
pub open spec fn joined(base: Seq<char>, name: Seq<char>) -> Seq<char> {
    if base.len() == 0 || base.last() == '/' {
        base + name
    } else {
        base + seq!['/'] + name
    }
}

/// The path `base/name`, for a relative `name`.
pub fn join_path(base: &str, name: &str) -> (r: String)
    ensures
        r@ == joined(base@, name@),
{
    let cs = chars_of(base);
    let mut r = base.to_owned();
    if cs.len() > 0 && cs[cs.len() - 1] != '/' {
        push_char(&mut r, '/');
    }
    r.append(name);
    r
}


/// A non-empty run of digits is a single word.
pub proof fn lemma_words_of_digits(s: Seq<char>)
    requires
        s.len() > 0,
        all_digits(s),
    ensures
        words(s) == seq![s],
{
    lemma_words_state_no_white(s);
}

proof fn lemma_words_state_no_white(s: Seq<char>)
    requires
        all_digits(s),
    ensures
        words_state(s) == (Seq::<Seq<char>>::empty(), s),
    decreases s.len(),
{
    if s.len() > 0 {
        let t = s.drop_last();
        assert(all_digits(t)) by {
            assert forall|i: int| 0 <= i < t.len() implies is_digit(#[trigger] t[i]) by {
                assert(t[i] == s[i]);
            }
        }
        lemma_words_state_no_white(t);
        assert(is_digit(s[s.len() - 1]));
        assert(!is_white(s.last()));
        assert(t.push(s.last()) =~= s);
    } else {
        assert(s =~= Seq::<char>::empty());
    }
}


// ---------------------------------------------------------------------------
// How splitting and trimming behave on joined texts
// ---------------------------------------------------------------------------

/// Every character of `s` is whitespace.
pub open spec fn all_white(s: Seq<char>) -> bool {
    forall|i: int| 0 <= i < s.len() ==> is_white(#[trigger] s[i])
}

/// No character of `s` is a newline.
pub open spec fn no_newline(s: Seq<char>) -> bool {
    forall|i: int| 0 <= i < s.len() ==> #[trigger] s[i] != '\n'
}

/// Once a word has been closed, reading on from there reads `t` as if from
/// the start.
pub proof fn lemma_words_state_append(p: Seq<char>, t: Seq<char>)
    requires
        words_state(p).1.len() == 0,
    ensures
        words_state(p + t).0 == words_state(p).0 + words_state(t).0,
        words_state(p + t).1 == words_state(t).1,
    decreases t.len(),
{
    if t.len() == 0 {
        assert(p + t =~= p);
        assert(words_state(p).0 + words_state(t).0 =~= words_state(p).0);
        assert(words_state(p).1 =~= words_state(t).1);
    } else {
        lemma_words_state_append(p, t.drop_last());
        assert((p + t).drop_last() =~= p + t.drop_last());
        assert((p + t).last() == t.last());
        let d = words_state(t.drop_last()).0;
        let c = words_state(t.drop_last()).1;
        assert((words_state(p).0 + d).push(c) =~= words_state(p).0 + d.push(c));
    }
}

/// Words on both sides of a whitespace character are the words of each
/// side: `words(a + c + b) == words(a) + words(b)`.
pub proof fn lemma_words_split(a: Seq<char>, c: char, b: Seq<char>)
    requires
        is_white(c),
    ensures
        words(a + seq![c] + b) == words(a) + words(b),
{
    let p = a.push(c);
    assert(p.drop_last() =~= a);
    assert(p.last() == c);
    assert(words_state(p).0 == words(a));
    lemma_words_state_append(p, b);
    assert(a + seq![c] + b =~= p + b);
    let db = words_state(b).0;
    let cb = words_state(b).1;
    assert((words(a) + db).push(cb) =~= words(a) + db.push(cb));
}

/// A text without newlines is read as one unfinished piece.
pub proof fn lemma_lines_state_no_newline(s: Seq<char>)
    requires
        no_newline(s),
    ensures
        lines_state(s).0 == Seq::<Seq<char>>::empty(),
        lines_state(s).1 == s,
    decreases s.len(),
{
    if s.len() > 0 {
        let t = s.drop_last();
        assert(no_newline(t)) by {
            assert forall|i: int| 0 <= i < t.len() implies #[trigger] t[i] != '\n' by {
                assert(t[i] == s[i]);
            }
        }
        lemma_lines_state_no_newline(t);
        assert(s[s.len() - 1] != '\n');
        assert(t.push(s.last()) =~= s);
    } else {
        assert(s =~= Seq::<char>::empty());
    }
}

/// Once a line has been closed, reading on from there reads `t` as if from
/// the start.
pub proof fn lemma_lines_state_append(p: Seq<char>, t: Seq<char>)
    requires
        lines_state(p).1.len() == 0,
    ensures
        lines_state(p + t).0 == lines_state(p).0 + lines_state(t).0,
        lines_state(p + t).1 == lines_state(t).1,
    decreases t.len(),
{
    if t.len() == 0 {
        assert(p + t =~= p);
        assert(lines_state(p).0 + lines_state(t).0 =~= lines_state(p).0);
        assert(lines_state(p).1 =~= lines_state(t).1);
    } else {
        lemma_lines_state_append(p, t.drop_last());
        assert((p + t).drop_last() =~= p + t.drop_last());
        assert((p + t).last() == t.last());
        let d = lines_state(t.drop_last()).0;
        let c = lines_state(t.drop_last()).1;
        assert((lines_state(p).0 + d).push(c) =~= lines_state(p).0 + d.push(c));
    }
}

/// A text of one line, ended by a newline, splits into that line and the
/// empty piece after it.
pub proof fn lemma_lines_one(l: Seq<char>)
    requires
        no_newline(l),
    ensures
        lines(l.push('\n')) == seq![l, Seq::<char>::empty()],
        lines_state(l.push('\n')).1.len() == 0,
{
    lemma_lines_state_no_newline(l);
    assert(l.push('\n').drop_last() =~= l);
    assert(lines_state(l.push('\n')).0 =~= seq![l]);
    assert(lines(l.push('\n')) =~= seq![l, Seq::<char>::empty()]);
}

/// A text of two lines, each ended by a newline, splits into both lines
/// and the empty piece after them.
pub proof fn lemma_lines_two(l0: Seq<char>, l: Seq<char>)
    requires
        no_newline(l0),
        no_newline(l),
    ensures
        lines(l0.push('\n') + l.push('\n')) == seq![l0, l, Seq::<char>::empty()],
{
    lemma_lines_one(l0);
    lemma_lines_one(l);
    lemma_lines_state_append(l0.push('\n'), l.push('\n'));
    lemma_lines_state_no_newline(l0);
    assert(l0.push('\n').drop_last() =~= l0);
    assert(lines_state(l0.push('\n')).0 =~= seq![l0]);
    lemma_lines_state_no_newline(l);
    assert(l.push('\n').drop_last() =~= l);
    assert(lines_state(l.push('\n')).0 =~= seq![l]);
    assert(lines(l0.push('\n') + l.push('\n')) =~= seq![l0, l, Seq::<char>::empty()]);
}

/// Leading whitespace does not change how a text trims from the start.
pub proof fn lemma_trim_start_white_prefix(a: Seq<char>, x: Seq<char>)
    requires
        all_white(a),
    ensures
        trim_start(a + x) == trim_start(x),
    decreases a.len(),
{
    if a.len() > 0 {
        assert((a + x)[0] == a[0]);
        assert((a + x).drop_first() =~= a.drop_first() + x);
        assert(all_white(a.drop_first())) by {
            assert forall|i: int| 0 <= i < a.drop_first().len() implies is_white(
                #[trigger] a.drop_first()[i],
            ) by {
                assert(a.drop_first()[i] == a[i + 1]);
            }
        }
        lemma_trim_start_white_prefix(a.drop_first(), x);
    } else {
        assert(a + x =~= x);
    }
}

/// Trailing whitespace does not change how a text trims from the end.
pub proof fn lemma_trim_end_white_suffix(x: Seq<char>, b: Seq<char>)
    requires
        all_white(b),
    ensures
        trim_end(x + b) == trim_end(x),
    decreases b.len(),
{
    if b.len() > 0 {
        assert((x + b).last() == b.last());
        assert(is_white(b[b.len() - 1]));
        assert((x + b).drop_last() =~= x + b.drop_last());
        assert(all_white(b.drop_last())) by {
            assert forall|i: int| 0 <= i < b.drop_last().len() implies is_white(
                #[trigger] b.drop_last()[i],
            ) by {
                assert(b.drop_last()[i] == b[i]);
            }
        }
        lemma_trim_end_white_suffix(x, b.drop_last());
    } else {
        assert(x + b =~= x);
    }
}

/// Whitespace around a run of digits is what trimming takes off, and all
/// of it: `trim(a + d + b) == d`.
pub proof fn lemma_trim_around_digits(a: Seq<char>, d: Seq<char>, b: Seq<char>)
    requires
        all_white(a),
        all_white(b),
        d.len() > 0,
        all_digits(d),
    ensures
        trim(a + d + b) == d,
{
    assert(a + d + b =~= a + (d + b));
    lemma_trim_start_white_prefix(a, d + b);
    assert((d + b)[0] == d[0]);
    assert(is_digit(d[0]));
    assert(trim_start(d + b) == d + b);
    lemma_trim_end_white_suffix(d, b);
    assert(is_digit(d[d.len() - 1]));
    assert(trim_end(d) == d);
}

} // verus!
