//! Character-level string operations with their meaning stated over the
//! strings' character sequences.
use vstd::prelude::*;
use vstd::string::StringExecFns;

verus! {

broadcast use vstd::seq_lib::group_seq_properties;

/// Whether `p` is a prefix of `s`.
pub open spec fn has_prefix(s: Seq<char>, p: Seq<char>) -> bool {
    p.len() <= s.len() && s.take(p.len() as int) == p
}

/// Whether `n` occurs in `s` starting at position `i`.
pub open spec fn occurs_at(s: Seq<char>, n: Seq<char>, i: int) -> bool {
    0 <= i && i + n.len() <= s.len() && s.subrange(i, i + n.len()) == n
}

/// Whether `n` occurs somewhere in `s` (the empty sequence occurs in every
/// sequence).
pub open spec fn has_substring(s: Seq<char>, n: Seq<char>) -> bool {
    exists|i: int| #[trigger] occurs_at(s, n, i)
}

/// The characters of `s`.
pub fn to_chars(s: &str) -> (r: Vec<char>)
    ensures
        r@ == s@,
{
    let mut r: Vec<char> = Vec::new();
    for c in it: s.chars()
        invariant
            it.seq() == s@,
            r@ == it.seq().take(it.index()),
    {
        r.push(c);
    }
    r
}

/// Appends one character to `s` (std's `String::push`).
#[verifier::external_body]
fn push_char(s: &mut String, c: char)
    ensures
        final(s)@ == old(s)@.push(c),
{
    s.push(c);
}

/// The string made of the characters `v[from..to]`.
pub fn from_chars(v: &Vec<char>, from: usize, to: usize) -> (r: String)
    requires
        from <= to <= v@.len(),
    ensures
        r@ == v@.subrange(from as int, to as int),
{
    let mut r = String::new();
    let mut i = from;
    while i < to
        invariant
            from <= i <= to <= v@.len(),
            r@ == v@.subrange(from as int, i as int),
        decreases to - i,
    {
        push_char(&mut r, v[i]);
        i += 1;
    }
    r
}

/// `a` followed by `b`.
pub fn concat(a: &str, b: &str) -> (r: String)
    ensures
        r@ == a@ + b@,
{
    let mut r = a.to_owned();
    r.append(b);
    r
}

/// Whether `s` starts with `p`.
pub fn starts_with(s: &str, p: &str) -> (r: bool)
    ensures
        r == has_prefix(s@, p@),
{
    let sv = to_chars(s);
    let pv = to_chars(p);
    if pv.len() > sv.len() {
        return false;
    }
    let mut i: usize = 0;
    while i < pv.len()
        invariant
            pv@.len() <= sv@.len(),
            i <= pv@.len(),
            sv@ == s@,
            pv@ == p@,
            forall|j: int| 0 <= j < i ==> sv@[j] == pv@[j],
        decreases pv@.len() - i,
    {
        if sv[i] != pv[i] {
            assert(s@.take(p@.len() as int)[i as int] != p@[i as int]);
            return false;
        }
        i += 1;
    }
    assert(s@.take(p@.len() as int) =~= p@);
    true
}

/// Whether `n` occurs at position `i` of `s` (character vectors).
fn occurs_at_exec(s: &Vec<char>, n: &Vec<char>, i: usize) -> (r: bool)
    requires
        i + n@.len() <= s@.len(),
    ensures
        r == occurs_at(s@, n@, i as int),
{
    assert(s@.len() == s.len());
    let mut j: usize = 0;
    while j < n.len()
        invariant
            i + n@.len() <= s@.len() <= usize::MAX,
            j <= n@.len(),
            forall|k: int| 0 <= k < j ==> s@[i + k] == n@[k],
        decreases n@.len() - j,
    {
        if s[i + j] != n[j] {
            assert(s@.subrange(i as int, i + n@.len())[j as int] != n@[j as int]);
            return false;
        }
        j += 1;
    }
    assert(s@.subrange(i as int, i + n@.len()) =~= n@);
    true
}

/// Whether `n` occurs somewhere in `s`.
pub fn contains_str(s: &str, n: &str) -> (r: bool)
    ensures
        r == has_substring(s@, n@),
{
    let sv = to_chars(s);
    let nv = to_chars(n);
    if nv.len() > sv.len() {
        assert forall|i: int| !#[trigger] occurs_at(s@, n@, i) by {}
        return false;
    }
    let last = sv.len() - nv.len();
    let mut i: usize = 0;
    while i < last
        invariant
            sv@ == s@,
            nv@ == n@,
            i <= last,
            last == sv@.len() - nv@.len(),
            forall|k: int| 0 <= k < i ==> !#[trigger] occurs_at(s@, n@, k),
        decreases last - i,
    {
        if occurs_at_exec(&sv, &nv, i) {
            return true;
        }
        i += 1;
    }
    if occurs_at_exec(&sv, &nv, last) {
        return true;
    }
    assert forall|k: int| !#[trigger] occurs_at(s@, n@, k) by {
        if 0 <= k < last {
            assert(k < i);
        }
    }
    false
}

/// `s` with every trailing `c` removed.
pub open spec fn trim_end_char(s: Seq<char>, c: char) -> Seq<char>
    decreases s.len(),
{
    if s.len() > 0 && s.last() == c {
        trim_end_char(s.drop_last(), c)
    } else {
        s
    }
}

/// `s` with every trailing newline removed (std's `trim_end_matches('\n')`).
pub fn trim_end_newlines(s: &str) -> (r: String)
    ensures
        r@ == trim_end_char(s@, '\n'),
{
    let v = to_chars(s);
    let mut end = v.len();
    while end > 0 && v[end - 1] == '\n'
        invariant
            v@ == s@,
            end <= v@.len(),
            trim_end_char(s@, '\n') == trim_end_char(s@.take(end as int), '\n'),
        decreases end,
    {
        assert(s@.take(end as int).drop_last() =~= s@.take(end - 1));
        end -= 1;
    }
    proof {
        if end > 0 {
            assert(s@.take(end as int).last() == v@[end - 1]);
        }
    }
    from_chars(&v, 0, end)
}

/// The first line of `s` as std's `lines().next().unwrap_or("")` gives it:
/// the characters before the first newline, without a carriage return that
/// ends them; all of `s` when it holds no newline.
pub open spec fn first_line(s: Seq<char>) -> Seq<char> {
    if exists|i: int| 0 <= i < s.len() && s[i] == '\n' {
        let i = choose|i: int| 0 <= i < s.len() && s[i] == '\n' && forall|j: int| 0 <= j < i ==> s[j] != '\n';
        let line = s.take(i);
        if line.len() > 0 && line.last() == '\r' {
            line.drop_last()
        } else {
            line
        }
    } else {
        s
    }
}

/// The first line of `s` (see `first_line`).
pub fn first_line_of(s: &str) -> (r: String)
    ensures
        r@ == first_line(s@),
{
    let v = to_chars(s);
    let mut i: usize = 0;
    while i < v.len()
        invariant
            v@ == s@,
            i <= v@.len(),
            forall|j: int| 0 <= j < i ==> v@[j] != '\n',
        decreases v@.len() - i,
    {
        if v[i] == '\n' {
            let ghost w = choose|w: int| 0 <= w < s@.len() && s@[w] == '\n' && forall|j: int| 0 <= j < w ==> s@[j] != '\n';
            proof {
                if w < i {
                    assert(v@[w] != '\n');
                }
                if w > i {
                    assert(s@[i as int] != '\n');
                }
            }
            if i > 0 && v[i - 1] == '\r' {
                return from_chars(&v, 0, i - 1);
            }
            return from_chars(&v, 0, i);
        }
        i += 1;
    }
    from_chars(&v, 0, v.len())
}

/// The digit character for `d`.
pub open spec fn digit_char(d: nat) -> char {
    if d == 0 { '0' }
    else if d == 1 { '1' }
    else if d == 2 { '2' }
    else if d == 3 { '3' }
    else if d == 4 { '4' }
    else if d == 5 { '5' }
    else if d == 6 { '6' }
    else if d == 7 { '7' }
    else if d == 8 { '8' }
    else { '9' }
}

/// The decimal representation of `n`, without leading zeros.
pub open spec fn decimal(n: nat) -> Seq<char>
    decreases n,
{
    if n < 10 {
        seq![digit_char(n)]
    } else {
        decimal(n / 10).push(digit_char(n % 10))
    }
}

fn digit(d: usize) -> (c: char)
    requires
        d < 10,
    ensures
        c == digit_char(d as nat),
{
    if d == 0 { '0' }
    else if d == 1 { '1' }
    else if d == 2 { '2' }
    else if d == 3 { '3' }
    else if d == 4 { '4' }
    else if d == 5 { '5' }
    else if d == 6 { '6' }
    else if d == 7 { '7' }
    else if d == 8 { '8' }
    else { '9' }
}

/// The decimal representation of `n` (as std's `to_string` writes it).
pub fn decimal_string(n: usize) -> (r: String)
    ensures
        r@ == decimal(n as nat),
    decreases n,
{
    if n < 10 {
        let mut r = String::new();
        push_char(&mut r, digit(n));
        r
    } else {
        let mut r = decimal_string(n / 10);
        push_char(&mut r, digit(n % 10));
        r
    }
}

/// Whether `c` is white space in the sense of Unicode's White_Space
/// property (std's `char::is_whitespace`).
pub open spec fn is_ws(c: char) -> bool {
    let n = c as u32;
    ||| 0x09 <= n <= 0x0D
    ||| n == 0x20
    ||| n == 0x85
    ||| n == 0xA0
    ||| n == 0x1680
    ||| 0x2000 <= n <= 0x200A
    ||| n == 0x2028
    ||| n == 0x2029
    ||| n == 0x202F
    ||| n == 0x205F
    ||| n == 0x3000
}

fn is_ws_exec(c: char) -> (r: bool)
    ensures
        r == is_ws(c),
{
    let n = c as u32;
    (0x09 <= n && n <= 0x0D) || n == 0x20 || n == 0x85 || n == 0xA0 || n == 0x1680 || (0x2000 <= n
        && n <= 0x200A) || n == 0x2028 || n == 0x2029 || n == 0x202F || n == 0x205F || n == 0x3000
}

/// `s` without its leading white space.
pub open spec fn trim_start_ws(s: Seq<char>) -> Seq<char>
    decreases s.len(),
{
    if s.len() > 0 && is_ws(s[0]) {
        trim_start_ws(s.drop_first())
    } else {
        s
    }
}

/// `s` without its trailing white space.
pub open spec fn trim_end_ws(s: Seq<char>) -> Seq<char>
    decreases s.len(),
{
    if s.len() > 0 && is_ws(s.last()) {
        trim_end_ws(s.drop_last())
    } else {
        s
    }
}

/// `s` without leading and trailing white space (std's `str::trim`).
pub open spec fn trim_ws(s: Seq<char>) -> Seq<char> {
    trim_end_ws(trim_start_ws(s))
}

/// `s` without leading and trailing white space (see `trim_ws`).
pub fn trim(s: &str) -> (r: String)
    ensures
        r@ == trim_ws(s@),
{
    let v = to_chars(s);
    let n = v.len();
    let mut a: usize = 0;
    while a < n && is_ws_exec(v[a])
        invariant
            v@ == s@,
            n == v@.len(),
            a <= n,
            trim_start_ws(s@) == trim_start_ws(s@.skip(a as int)),
        decreases n - a,
    {
        assert(s@.skip(a as int).drop_first() =~= s@.skip(a + 1));
        a += 1;
    }
    proof {
        if a < n {
            assert(s@.skip(a as int)[0] == s@[a as int]);
        }
    }
    assert(trim_start_ws(s@) == s@.subrange(a as int, n as int));
    let mut b: usize = n;
    while b > a && is_ws_exec(v[b - 1])
        invariant
            v@ == s@,
            n == v@.len(),
            a <= b <= n,
            trim_ws(s@) == trim_end_ws(s@.subrange(a as int, b as int)),
        decreases b,
    {
        assert(s@.subrange(a as int, b as int).drop_last() =~= s@.subrange(a as int, b - 1));
        b -= 1;
    }
    proof {
        if b > a {
            assert(s@.subrange(a as int, b as int).last() == s@[b - 1]);
        }
    }
    from_chars(&v, a, b)
}

// ---------------------------------------------------------------------------
// What the text functions give, stated directly.

/// The number that a string of decimal digits stands for.
pub open spec fn digits_value(d: Seq<char>) -> int
    decreases d.len(),
{
    if d.len() == 0 {
        0
    } else {
        digits_value(d.drop_last()) * 10 + (d.last() as int - '0' as int)
    }
}

proof fn lemma_digit_char_value(d: nat)
    requires
        d < 10,
    ensures
        digit_char(d) as int - '0' as int == d,
        '0' <= digit_char(d) <= '9',
{
    assert('0' as int == 48);
    assert('9' as int == 57);
    if d == 0 { assert('0' as int == 48); }
    else if d == 1 { assert('1' as int == 49); }
    else if d == 2 { assert('2' as int == 50); }
    else if d == 3 { assert('3' as int == 51); }
    else if d == 4 { assert('4' as int == 52); }
    else if d == 5 { assert('5' as int == 53); }
    else if d == 6 { assert('6' as int == 54); }
    else if d == 7 { assert('7' as int == 55); }
    else if d == 8 { assert('8' as int == 56); }
    else { assert('9' as int == 57); }
}

/// `decimal(n)` is the usual writing of `n`: decimal digits only, standing
/// for `n`, with no leading zero (but for `0` itself).
pub proof fn lemma_decimal_writes_number(n: nat)
    ensures
        decimal(n).len() > 0,
        forall|i: int| 0 <= i < decimal(n).len() ==> '0' <= #[trigger] decimal(n)[i] <= '9',
        digits_value(decimal(n)) == n,
        n > 0 ==> decimal(n)[0] != '0',
    decreases n,
{
    lemma_digit_char_value(n % 10);
    if n < 10 {
        assert(decimal(n) == seq![digit_char(n)]);
        assert(decimal(n).drop_last() =~= Seq::<char>::empty());
        assert(n % 10 == n);
        assert(digits_value(decimal(n).drop_last()) == 0);
        assert(decimal(n).last() == digit_char(n));
    } else {
        lemma_decimal_writes_number(n / 10);
        let d = decimal(n);
        let p = decimal(n / 10);
        assert(d.drop_last() =~= p);
        assert forall|i: int| 0 <= i < d.len() implies '0' <= #[trigger] d[i] <= '9' by {
            if i < p.len() {
                assert(d[i] == p[i]);
            }
        }
        assert(d[0] == p[0]);
        assert(d.last() == digit_char(n % 10));
        assert(digits_value(d) == digits_value(d.drop_last()) * 10 + (d.last() as int - '0' as int));
        assert(digits_value(p) == n / 10);
        assert(digits_value(d) == (n / 10) * 10 + (n % 10));
        assert(n == (n / 10) * 10 + n % 10);
    }
}

/// Trimming removes leading and trailing `c` and nothing else: the result
/// does not end with `c`, and `s` is the result followed by `c`s only.
pub proof fn lemma_trim_end_char(s: Seq<char>, c: char)
    ensures
        trim_end_char(s, c).len() <= s.len(),
        s.take(trim_end_char(s, c).len() as int) == trim_end_char(s, c),
        forall|i: int| trim_end_char(s, c).len() <= i < s.len() ==> #[trigger] s[i] == c,
        trim_end_char(s, c).len() > 0 ==> trim_end_char(s, c).last() != c,
    decreases s.len(),
{
    if s.len() > 0 && s.last() == c {
        let p = s.drop_last();
        lemma_trim_end_char(p, c);
        let r = trim_end_char(p, c);
        assert(s.take(r.len() as int) =~= p.take(r.len() as int));
        assert forall|i: int| r.len() <= i < s.len() implies #[trigger] s[i] == c by {
            if i < p.len() {
                assert(s[i] == p[i]);
            }
        }
    } else {
        assert(s.take(s.len() as int) =~= s);
    }
}

proof fn lemma_trim_start_ws(s: Seq<char>)
    ensures
        trim_start_ws(s).len() <= s.len(),
        trim_start_ws(s) == s.skip(s.len() - trim_start_ws(s).len()),
        forall|i: int| 0 <= i < s.len() - trim_start_ws(s).len() ==> is_ws(#[trigger] s[i]),
        trim_start_ws(s).len() > 0 ==> !is_ws(trim_start_ws(s)[0]),
    decreases s.len(),
{
    if s.len() > 0 && is_ws(s[0]) {
        let p = s.drop_first();
        lemma_trim_start_ws(p);
        let r = trim_start_ws(p);
        assert(s.skip(s.len() - r.len()) =~= p.skip(p.len() - r.len()));
        assert forall|i: int| 0 <= i < s.len() - r.len() implies is_ws(#[trigger] s[i]) by {
            if i > 0 {
                assert(s[i] == p[i - 1]);
            }
        }
    } else {
        assert(s.skip(0) =~= s);
    }
}

proof fn lemma_trim_end_ws(s: Seq<char>)
    ensures
        trim_end_ws(s).len() <= s.len(),
        trim_end_ws(s) == s.take(trim_end_ws(s).len() as int),
        forall|i: int| trim_end_ws(s).len() <= i < s.len() ==> is_ws(#[trigger] s[i]),
        trim_end_ws(s).len() > 0 ==> !is_ws(trim_end_ws(s).last()),
    decreases s.len(),
{
    if s.len() > 0 && is_ws(s.last()) {
        let p = s.drop_last();
        lemma_trim_end_ws(p);
        let r = trim_end_ws(p);
        assert(s.take(r.len() as int) =~= p.take(r.len() as int));
        assert forall|i: int| r.len() <= i < s.len() implies is_ws(#[trigger] s[i]) by {
            if i < p.len() {
                assert(s[i] == p[i]);
            }
        }
    } else {
        assert(s.take(s.len() as int) =~= s);
    }
}

/// Trimming keeps a stretch of `s` and drops only white space around it:
/// `trim_ws(s)` is `s[a..b]` where everything before `a` and from `b` on is
/// white space, and the result neither begins nor ends with white space.
pub proof fn lemma_trim_keeps_middle(s: Seq<char>)
    ensures
        exists|a: int, b: int|
            0 <= a <= b <= s.len() && trim_ws(s) == s.subrange(a, b) && (forall|i: int|
                0 <= i < a ==> is_ws(#[trigger] s[i])) && (forall|i: int| b <= i < s.len() ==> is_ws(#[trigger] s[i])),
        trim_ws(s).len() > 0 ==> !is_ws(trim_ws(s)[0]) && !is_ws(trim_ws(s).last()),
{
    lemma_trim_start_ws(s);
    let m = trim_start_ws(s);
    lemma_trim_end_ws(m);
    let r = trim_end_ws(m);
    let a = s.len() - m.len();
    let b = a + r.len();
    assert(r =~= s.subrange(a, b));
    assert forall|i: int| b <= i < s.len() implies is_ws(#[trigger] s[i]) by {
        assert(s[i] == m[i - a]);
    }
    if r.len() > 0 {
        assert(r[0] == m[0]);
    }
}

proof fn lemma_first_newline_exists(s: Seq<char>, w: int)
    requires
        0 <= w < s.len(),
        s[w] == '\n',
    ensures
        exists|i: int| 0 <= i < s.len() && s[i] == '\n' && forall|j: int| 0 <= j < i ==> s[j] != '\n',
    decreases w,
{
    if exists|v: int| 0 <= v < w && s[v] == '\n' {
        let v = choose|v: int| 0 <= v < w && s[v] == '\n';
        lemma_first_newline_exists(s, v);
    } else {
        assert(0 <= w < s.len() && s[w] == '\n' && forall|j: int| 0 <= j < w ==> s[j] != '\n');
    }
}

/// The first line stops at the first newline: it holds no newline, it
/// begins `s`, and `s` either ends there or goes on with `"\n"` or, after a
/// dropped carriage return, `"\r\n"`.
pub proof fn lemma_first_line_stops_at_newline(s: Seq<char>)
    ensures
        ({
            let l = first_line(s);
            &&& l.len() <= s.len()
            &&& s.take(l.len() as int) == l
            &&& forall|i: int| 0 <= i < l.len() ==> #[trigger] l[i] != '\n'
            &&& l.len() == s.len() || s[l.len() as int] == '\n' || (s[l.len() as int] == '\r' && l.len() + 1
                < s.len() && s[l.len() + 1int] == '\n')
            &&& l.len() == s.len() ==> forall|i: int| 0 <= i < s.len() ==> #[trigger] s[i] != '\n'
        }),
{
    let l = first_line(s);
    if exists|i: int| 0 <= i < s.len() && s[i] == '\n' {
        let w = choose|w: int| 0 <= w < s.len() && s[w] == '\n';
        lemma_first_newline_exists(s, w);
        let i = choose|i: int| 0 <= i < s.len() && s[i] == '\n' && forall|j: int| 0 <= j < i ==> s[j] != '\n';
        let line = s.take(i);
        if line.len() > 0 && line.last() == '\r' {
            assert(s.take(l.len() as int) =~= l);
            assert(s[l.len() as int] == line.last());
        } else {
            assert(s.take(l.len() as int) =~= l);
        }
    } else {
        assert(s.take(s.len() as int) =~= s);
    }
}

} // verus!
