//! Character-level text utilities: decimal rendering and parsing, Unicode
//! whitespace trimming, splitting on a separator and line splitting.
use vstd::prelude::*;

verus! {

/// `String::push` appends one character at the end of the string.
pub assume_specification[ String::push ](string: &mut String, ch: char)
    ensures
        final(string)@ == old(string)@.push(ch),
;

/// The views of a sequence of strings.
pub open spec fn texts(v: Seq<String>) -> Seq<Seq<char>> {
    v.map_values(|s: String| s@)
}

// ---------------------------------------------------------------- decimals

/// The ASCII digit for `d` (0 to 9).
pub open spec fn digit_char(d: int) -> char {
    (d + 48) as char
}

/// The decimal digits of `n`, most significant first, without leading zeros.
pub open spec fn decimal(n: nat) -> Seq<char>
    decreases n,
{
    if n < 10 {
        seq![digit_char(n as int)]
    } else {
        decimal(n / 10).push(digit_char((n % 10) as int))
    }
}

/// `n` in decimal, with a leading `-` when it is negative.
pub open spec fn signed_decimal(n: int) -> Seq<char> {
    if n < 0 {
        seq!['-'] + decimal((-n) as nat)
    } else {
        decimal(n as nat)
    }
}

/// `n` (below 100) in decimal on at least two digits.
pub open spec fn two_digits(n: nat) -> Seq<char> {
    if n < 10 {
        seq!['0'] + decimal(n)
    } else {
        decimal(n)
    }
}

fn push_digit(out: &mut String, d: u64)
    requires
        d < 10,
    ensures
        final(out)@ == old(out)@.push(digit_char(d as int)),
{
    let c = ((d as u8) + 48u8) as char;
    out.push(c);
}

/// Appends the decimal digits of `n` to `out`.
pub fn write_decimal(out: &mut String, n: u64)
    ensures
        final(out)@ == old(out)@ + decimal(n as nat),
    decreases n,
{
    let ghost start = out@;
    if n >= 10 {
        write_decimal(out, n / 10);
        push_digit(out, n % 10);
        assert(out@ =~= start + decimal(n as nat));
    } else {
        push_digit(out, n);
        assert(out@ =~= start + decimal(n as nat));
    }
}

/// Appends `n` in decimal to `out`, with a leading `-` when it is negative.
pub fn write_signed(out: &mut String, n: i64)
    ensures
        final(out)@ == old(out)@ + signed_decimal(n as int),
{
    let ghost start = out@;
    if n < 0 {
        out.push('-');
        let m: u64 = if n == i64::MIN {
            9223372036854775808u64
        } else {
            (-n) as u64
        };
        write_decimal(out, m);
        assert(out@ =~= start + signed_decimal(n as int));
    } else {
        write_decimal(out, n as u64);
    }
}

/// `n` rendered in decimal, as `to_string` renders an unsigned integer.
pub fn u64_text(n: u64) -> (res: String)
    ensures
        res@ == decimal(n as nat),
{
    let mut out = String::new();
    write_decimal(&mut out, n);
    assert(out@ =~= decimal(n as nat));
    out
}

/// `n` rendered in decimal, as `to_string` renders a signed integer.
pub fn i64_text(n: i64) -> (res: String)
    ensures
        res@ == signed_decimal(n as int),
{
    let mut out = String::new();
    write_signed(&mut out, n);
    assert(out@ =~= signed_decimal(n as int));
    out
}

/// Appends `n` on at least two digits, as the format `{:02}` renders it.
pub fn write_two_digits(out: &mut String, n: u64)
    requires
        n < 100,
    ensures
        final(out)@ == old(out)@ + two_digits(n as nat),
{
    let ghost start = out@;
    if n < 10 {
        out.push('0');
    }
    write_decimal(out, n);
    assert(out@ =~= start + two_digits(n as nat));
}

// ---------------------------------------------------------------- parsing

pub open spec fn is_digit(c: char) -> bool {
    '0' <= c <= '9'
}

pub open spec fn all_digits(s: Seq<char>) -> bool {
    s.len() > 0 && forall|i: int| 0 <= i < s.len() ==> is_digit(#[trigger] s[i])
}

/// The value of a run of decimal digits.
pub open spec fn digits_value(s: Seq<char>) -> int
    decreases s.len(),
{
    if s.len() == 0 {
        0
    } else {
        10 * digits_value(s.drop_last()) + (s.last() as int - 48)
    }
}

/// What `str::parse::<i64>` accepts: an optional `+` or `-`, then one or more
/// ASCII digits, with the value in the range of `i64`.
pub open spec fn parsed_i64(s: Seq<char>) -> Option<i64> {
    let signed = s.len() > 0 && (s[0] == '+' || s[0] == '-');
    let body = if signed {
        s.drop_first()
    } else {
        s
    };
    let v = if signed && s[0] == '-' {
        -digits_value(body)
    } else {
        digits_value(body)
    };
    if all_digits(body) && i64::MIN <= v <= i64::MAX {
        Some(v as i64)
    } else {
        None
    }
}

proof fn lemma_digits_value_nonneg(s: Seq<char>)
    requires
        forall|i: int| 0 <= i < s.len() ==> is_digit(#[trigger] s[i]),
    ensures
        digits_value(s) >= 0,
    decreases s.len(),
{
    if s.len() > 0 {
        assert(is_digit(s[s.len() - 1]));
        lemma_digits_value_nonneg(s.drop_last());
    }
}

proof fn lemma_decimal_digits(n: nat)
    ensures
        decimal(n).len() > 0,
        forall|i: int| 0 <= i < decimal(n).len() ==> is_digit(#[trigger] decimal(n)[i]),
        digits_value(decimal(n)) == n,
    decreases n,
{
    let d = decimal(n);
    let k = (n % 10) as int;
    assert(digit_char(k) as int == k + 48);
    if n < 10 {
        assert(d.drop_last() =~= Seq::<char>::empty());
        assert(d.last() == digit_char(k));
    } else {
        lemma_decimal_digits(n / 10);
        assert(d.drop_last() =~= decimal(n / 10));
        assert(d.last() == digit_char(k));
    }
    assert(digits_value(d) == 10 * digits_value(d.drop_last()) + (d.last() as int - 48));
    assert(n == 10 * (n / 10) + k);
}

/// A number below 100 on two digits is its tens digit, then its units digit,
/// as `{:02}` writes it: `5` is `05`, `35` is `35`.
pub proof fn lemma_two_digits(n: nat)
    requires
        n < 100,
    ensures
        two_digits(n) == seq![digit_char((n / 10) as int), digit_char((n % 10) as int)],
{
    if n >= 10 {
        assert(decimal(n / 10) == seq![digit_char((n / 10) as int)]);
        assert(decimal(n) =~= seq![digit_char((n / 10) as int), digit_char((n % 10) as int)]);
    } else {
        assert(two_digits(n) =~= seq!['0', digit_char(n as int)]);
        assert(digit_char(0) == '0');
    }
}

/// Reading back an integer written in decimal gives the same integer.
pub proof fn lemma_parse_signed_decimal(n: i64)
    ensures
        parsed_i64(signed_decimal(n as int)) == Some(n),
{
    if n < 0 {
        let m = (-(n as int)) as nat;
        lemma_decimal_digits(m);
        let s = signed_decimal(n as int);
        assert(s[0] == '-');
        assert(s.drop_first() =~= decimal(m));
    } else {
        lemma_decimal_digits(n as nat);
        let s = signed_decimal(n as int);
        assert(is_digit(s[0]));
    }
}

/// Parses `s` as `str::parse::<i64>` does.
pub fn parse_i64(s: &str) -> (res: Option<i64>)
    ensures
        res == parsed_i64(s@),
{
    let cs = chars_of(s);
    let n = cs.len();
    if n == 0 {
        return None;
    }
    let neg = cs[0] == '-';
    let start: usize = if cs[0] == '+' || cs[0] == '-' {
        1
    } else {
        0
    };
    let ghost body = if start == 1 {
        s@.drop_first()
    } else {
        s@
    };
    assert(body =~= s@.skip(start as int));
    if start == n {
        assert(body.len() == 0);
        assert(!all_digits(body));
        assert(parsed_i64(s@) is None);
        return None;
    }
    let mut acc: u128 = 0;
    let mut big = false;
    let mut i = start;
    while i < n
        invariant
            cs@ == s@,
            n == cs.len(),
            1 <= n,
            start <= i <= n,
            start <= 1,
            body == s@.skip(start as int),
            body == (if s@.len() > 0 && (s@[0] == '+' || s@[0] == '-') {
                s@.drop_first()
            } else {
                s@
            }),
            forall|k: int| start <= k < i ==> is_digit(#[trigger] cs@[k]),
            !big ==> acc == digits_value(s@.subrange(start as int, i as int)),
            !big ==> acc <= 9223372036854775808u128,
            big ==> digits_value(s@.subrange(start as int, i as int)) > 9223372036854775808,
        decreases n - i,
    {
        let c = cs[i];
        if !('0' <= c && c <= '9') {
            assert(body[i - start] == c);
            assert(!is_digit(body[i - start]));
            assert(!all_digits(body));
            assert(parsed_i64(s@) is None);
            return None;
        }
        let ghost pre = s@.subrange(start as int, i as int);
        let ghost post = s@.subrange(start as int, i + 1);
        assert(post.drop_last() =~= pre);
        assert(post.last() == c);
        proof {
            lemma_digits_value_nonneg(pre);
        }
        if !big {
            let d = (c as u32 - 48) as u128;
            acc = acc * 10 + d;
            if acc > 9223372036854775808u128 {
                big = true;
            }
        }
        i = i + 1;
    }
    assert(s@.subrange(start as int, n as int) =~= body);
    assert(all_digits(body)) by {
        assert forall|k: int| 0 <= k < body.len() implies is_digit(#[trigger] body[k]) by {
            assert(body[k] == cs@[k + start]);
        }
    }
    if big {
        return None;
    }
    if neg {
        let v: i128 = -(acc as i128);
        Some(v as i64)
    } else if acc <= 9223372036854775807u128 {
        Some(acc as i64)
    } else {
        None
    }
}

// ---------------------------------------------------------------- characters

/// The characters of `s`, in order.
pub fn chars_of(s: &str) -> (res: Vec<char>)
    ensures
        res@ == s@,
{
    let mut res: Vec<char> = Vec::new();
    for c in it: s.chars()
        invariant
            res@ == it.seq().take(it.index() as int),
    {
        res.push(c);
    }
    res
}

/// The string made of `cs[from..to]`.
pub fn text_of(cs: &Vec<char>, from: usize, to: usize) -> (res: String)
    requires
        from <= to <= cs.len(),
    ensures
        res@ == cs@.subrange(from as int, to as int),
{
    let mut out = String::new();
    let mut i = from;
    while i < to
        invariant
            from <= i <= to <= cs.len(),
            out@ == cs@.subrange(from as int, i as int),
        decreases to - i,
    {
        out.push(cs[i]);
        i = i + 1;
        assert(out@ =~= cs@.subrange(from as int, i as int));
    }
    out
}

/// Whether two strings hold the same characters.
pub fn same_text(a: &str, b: &str) -> (res: bool)
    ensures
        res == (a@ == b@),
{
    let x = a.to_owned();
    let y = b.to_owned();
    x == y
}

// ---------------------------------------------------------------- whitespace

/// The Unicode `White_Space` property, which `char::is_whitespace` and
/// `str::trim` go by.
pub open spec fn is_white_space(c: char) -> bool {
    ||| '\t' <= c <= '\r'
    ||| c == ' '
    ||| c == '\u{85}'
    ||| c == '\u{a0}'
    ||| c == '\u{1680}'
    ||| '\u{2000}' <= c <= '\u{200a}'
    ||| c == '\u{2028}'
    ||| c == '\u{2029}'
    ||| c == '\u{202f}'
    ||| c == '\u{205f}'
    ||| c == '\u{3000}'
}

/// The number of whitespace characters that `s` starts with.
pub open spec fn leading_ws(s: Seq<char>) -> nat
    decreases s.len(),
{
    if s.len() > 0 && is_white_space(s[0]) {
        1 + leading_ws(s.drop_first())
    } else {
        0
    }
}

/// The number of whitespace characters that `s` ends with.
pub open spec fn trailing_ws(s: Seq<char>) -> nat
    decreases s.len(),
{
    if s.len() > 0 && is_white_space(s.last()) {
        1 + trailing_ws(s.drop_last())
    } else {
        0
    }
}

/// `s` without its leading and trailing whitespace, as `str::trim` gives it.
pub open spec fn trimmed(s: Seq<char>) -> Seq<char> {
    if leading_ws(s) == s.len() {
        Seq::empty()
    } else {
        s.subrange(leading_ws(s) as int, s.len() - trailing_ws(s))
    }
}

fn white_space(c: char) -> (res: bool)
    ensures
        res == is_white_space(c),
{
    ('\t' <= c && c <= '\r') || c == ' ' || c == '\u{85}' || c == '\u{a0}' || c == '\u{1680}'
        || ('\u{2000}' <= c && c <= '\u{200a}') || c == '\u{2028}' || c == '\u{2029}'
        || c == '\u{202f}' || c == '\u{205f}' || c == '\u{3000}'
}

proof fn lemma_leading_ws_le(s: Seq<char>)
    ensures
        leading_ws(s) <= s.len(),
    decreases s.len(),
{
    if s.len() > 0 && is_white_space(s[0]) {
        lemma_leading_ws_le(s.drop_first());
    }
}

/// `s` without leading and trailing whitespace.
pub fn trim(s: &str) -> (res: String)
    ensures
        res@ == trimmed(s@),
{
    let cs = chars_of(s);
    let n = cs.len();
    let mut i: usize = 0;
    assert(s@.skip(0) =~= s@);
    while i < n && white_space(cs[i])
        invariant
            cs@ == s@,
            n == cs.len(),
            i <= n,
            leading_ws(s@) == i + leading_ws(s@.skip(i as int)),
        decreases n - i,
    {
        assert(s@.skip(i as int).drop_first() =~= s@.skip(i + 1));
        i = i + 1;
    }
    if i == n {
        assert(s@.skip(n as int).len() == 0);
        return String::new();
    }
    assert(leading_ws(s@.skip(i as int)) == 0);
    let mut j: usize = n;
    assert(s@.take(n as int) =~= s@);
    while j > i && white_space(cs[j - 1])
        invariant
            cs@ == s@,
            n == cs.len(),
            i < n,
            !is_white_space(cs@[i as int]),
            i < j <= n,
            trailing_ws(s@) == (n - j) + trailing_ws(s@.take(j as int)),
        decreases j,
    {
        assert(s@.take(j as int).drop_last() =~= s@.take(j - 1));
        j = j - 1;
    }
    if j == i {
        assert(false);
    }
    assert(trailing_ws(s@.take(j as int)) == 0);
    text_of(&cs, i, j)
}

// ---------------------------------------------------------------- splitting

/// The pieces of `s` between occurrences of `sep`, as `str::split` with a
/// character pattern yields them: empty pieces included, and one piece more
/// than there are separators.
pub open spec fn split_on(s: Seq<char>, sep: char) -> Seq<Seq<char>>
    decreases s.len(),
{
    if s.len() == 0 {
        seq![Seq::empty()]
    } else {
        let rest = split_on(s.drop_first(), sep);
        if s[0] == sep {
            seq![Seq::empty()] + rest
        } else {
            rest.update(0, seq![s[0]] + rest[0])
        }
    }
}

proof fn lemma_split_on_len(s: Seq<char>, sep: char)
    ensures
        split_on(s, sep).len() >= 1,
    decreases s.len(),
{
    if s.len() > 0 {
        lemma_split_on_len(s.drop_first(), sep);
    }
}

/// `split_on(rest)` with `cur` put in front of its first piece.
spec fn split_after(cur: Seq<char>, rest: Seq<char>, sep: char) -> Seq<Seq<char>> {
    let r = split_on(rest, sep);
    r.update(0, cur + r[0])
}

/// The pieces of `s` between occurrences of `sep`.
pub fn split_text(s: &str, sep: char) -> (res: Vec<String>)
    ensures
        texts(res@) == split_on(s@, sep),
{
    let cs = chars_of(s);
    let n = cs.len();
    let mut pieces: Vec<String> = Vec::new();
    let mut cur = String::new();
    let mut i: usize = 0;
    assert(s@.skip(0) =~= s@);
    proof {
        lemma_split_on_len(s@, sep);
        assert(split_on(s@, sep).update(0, Seq::<char>::empty() + split_on(s@, sep)[0])
            =~= split_on(s@, sep));
    }
    while i < n
        invariant
            cs@ == s@,
            n == cs.len(),
            i <= n,
            texts(pieces@) + split_after(cur@, s@.skip(i as int), sep) == split_on(s@, sep),
        decreases n - i,
    {
        let c = cs[i];
        let ghost rest = s@.skip(i as int);
        let ghost tail = s@.skip(i + 1);
        assert(rest.drop_first() =~= tail);
        assert(rest[0] == c);
        proof {
            lemma_split_on_len(tail, sep);
        }
        if c == sep {
            let ghost old_pieces = texts(pieces@);
            let ghost old_cur = cur@;
            pieces.push(cur);
            cur = String::new();
            assert(texts(pieces@) =~= old_pieces.push(old_cur));
            assert(split_after(old_cur, rest, sep) =~= seq![old_cur] + split_after(
                Seq::empty(),
                tail,
                sep,
            ));
            assert(texts(pieces@) + split_after(cur@, tail, sep) =~= old_pieces + split_after(
                old_cur,
                rest,
                sep,
            ));
        } else {
            let ghost old_cur = cur@;
            cur.push(c);
            let ghost r = split_on(tail, sep);
            assert(split_on(rest, sep) == r.update(0, seq![c] + r[0]));
            assert(old_cur + (seq![c] + r[0]) =~= old_cur.push(c) + r[0]);
            assert(split_after(old_cur, rest, sep) =~= split_after(cur@, tail, sep));
        }
        i = i + 1;
    }
    let ghost before = texts(pieces@);
    assert(s@.skip(n as int) =~= Seq::<char>::empty());
    let ghost last = cur@;
    pieces.push(cur);
    assert(split_after(last, Seq::<char>::empty(), sep) =~= seq![last]);
    assert(texts(pieces@) =~= before.push(last));
    assert(texts(pieces@) =~= before + split_after(last, s@.skip(n as int), sep));
    pieces
}

/// `p` without one carriage return at its end.
pub open spec fn strip_cr(p: Seq<char>) -> Seq<char> {
    if p.len() > 0 && p.last() == '\r' {
        p.drop_last()
    } else {
        p
    }
}

/// The lines of `s`, as `str::lines` yields them: split at `\n`, a `\r`
/// just before a `\n` dropped, and no empty line after a final `\n`.
pub open spec fn text_lines(s: Seq<char>) -> Seq<Seq<char>> {
    let p = split_on(s, '\n');
    let last = p.last();
    p.drop_last().map_values(|x: Seq<char>| strip_cr(x)) + if last.len() > 0 {
        seq![last]
    } else {
        Seq::empty()
    }
}

fn without_cr(piece: &String) -> (res: String)
    ensures
        res@ == strip_cr(piece@),
{
    let cs = chars_of(piece.as_str());
    let n = cs.len();
    if n > 0 && cs[n - 1] == '\r' {
        text_of(&cs, 0, n - 1)
    } else {
        text_of(&cs, 0, n)
    }
}

/// The lines of `s`.
pub fn lines_of(s: &str) -> (res: Vec<String>)
    ensures
        texts(res@) == text_lines(s@),
{
    let pieces = split_text(s, '\n');
    let ghost p = split_on(s@, '\n');
    proof {
        lemma_split_on_len(s@, '\n');
    }
    let n = pieces.len();
    let mut out: Vec<String> = Vec::new();
    let mut k: usize = 0;
    while k + 1 < n
        invariant
            texts(pieces@) == p,
            n == pieces.len(),
            n >= 1,
            k < n,
            texts(out@) == p.take(k as int).map_values(|x: Seq<char>| strip_cr(x)),
        decreases n - k,
    {
        let line = without_cr(&pieces[k]);
        let ghost before = texts(out@);
        out.push(line);
        assert(texts(out@) =~= before.push(strip_cr(p[k as int])));
        assert(p.take(k + 1).map_values(|x: Seq<char>| strip_cr(x)) =~= p.take(
            k as int,
        ).map_values(|x: Seq<char>| strip_cr(x)).push(strip_cr(p[k as int])));
        k = k + 1;
    }
    assert(p.take(k as int) =~= p.drop_last());
    let ghost body = texts(out@);
    if !pieces[n - 1].as_str().is_empty() {
        let last = pieces[n - 1].clone();
        out.push(last);
        assert(texts(out@) =~= body + seq![p.last()]);
    } else {
        assert(texts(out@) =~= body + Seq::<Seq<char>>::empty());
    }
    out
}

} // verus!
