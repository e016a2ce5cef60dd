//! Character-level helpers: Unicode whitespace, whitespace tokens,
//! decimal numbers, and the construction of `String`s from characters.

use vstd::prelude::*;

verus! {

/// The Unicode `White_Space` property, which `char::is_whitespace` tests.
pub open spec fn is_ws(c: char) -> bool {
    let u = c as u32;
    ||| (0x09 <= u && u <= 0x0d)
    ||| u == 0x20
    ||| u == 0x85
    ||| u == 0xa0
    ||| u == 0x1680
    ||| (0x2000 <= u && u <= 0x200a)
    ||| u == 0x2028
    ||| u == 0x2029
    ||| u == 0x202f
    ||| u == 0x205f
    ||| u == 0x3000
}

/// Whether `c` is Unicode whitespace.
pub fn char_is_ws(c: char) -> (r: bool)
    ensures
        r == is_ws(c),
{
    let u = c as u32;
    (0x09 <= u && u <= 0x0d) || u == 0x20 || u == 0x85 || u == 0xa0 || u == 0x1680 || (0x2000
        <= u && u <= 0x200a) || u == 0x2028 || u == 0x2029 || u == 0x202f || u == 0x205f || u
        == 0x3000
}

/// The characters of `s`, in order.
pub fn chars_of(s: &str) -> (v: Vec<char>)
    ensures
        v@ == s@,
{
    let mut v: Vec<char> = Vec::new();
    for c in it: s.chars()
        invariant
            v@ == it.seq().take(it.index() as int),
    {
        v.push(c);
    }
    v
}


/// Whitespace tokenisation of a prefix: the tokens already closed, and the
/// token being read (empty between tokens).
pub open spec fn ws_scan(s: Seq<char>) -> (Seq<Seq<char>>, Seq<char>)
    decreases s.len(),
{
    if s.len() == 0 {
        (Seq::empty(), Seq::empty())
    } else {
        let (done, cur) = ws_scan(s.drop_last());
        if is_ws(s.last()) {
            if cur.len() > 0 {
                (done.push(cur), Seq::empty())
            } else {
                (done, Seq::empty())
            }
        } else {
            (done, cur.push(s.last()))
        }
    }
}

/// The maximal runs of non-whitespace characters of `s`, in order: what
/// `str::split_whitespace` yields.
pub open spec fn ws_tokens(s: Seq<char>) -> Seq<Seq<char>> {
    let (done, cur) = ws_scan(s);
    if cur.len() > 0 {
        done.push(cur)
    } else {
        done
    }
}

/// A `String` holding the characters `cs`, in order: std's
/// `Iterator::collect` into a `String` (its `FromIterator<char>`), which
/// pushes each character in turn.
#[verifier::external_body]
pub(crate) fn string_from_chars(cs: &[char]) -> (r: String)
    ensures
        r@ == cs@,
{
    cs.iter().collect()
}

/// The whitespace-separated tokens of `s`.
pub fn split_ws(s: &str) -> (toks: Vec<String>)
    ensures
        toks@.map_values(|t: String| t@) == ws_tokens(s@),
{
    let cs = chars_of(s);
    let mut toks: Vec<String> = Vec::new();
    let mut cur: Vec<char> = Vec::new();
    let mut i: usize = 0;
    while i < cs.len()
        invariant
            i <= cs@.len(),
            cs@ == s@,
            toks@.map_values(|t: String| t@) == ws_scan(s@.take(i as int)).0,
            cur@ == ws_scan(s@.take(i as int)).1,
        decreases cs@.len() - i,
    {
        let c = cs[i];
        proof {
            assert(s@.take(i + 1).drop_last() == s@.take(i as int));
        }
        if char_is_ws(c) {
            if cur.len() > 0 {
                let t = string_from_chars(cur.as_slice());
                toks.push(t);
                cur = Vec::new();
            }
        } else {
            cur.push(c);
        }
        i = i + 1;
    }
    proof {
        assert(s@.take(cs@.len() as int) == s@);
    }
    if cur.len() > 0 {
        let t = string_from_chars(cur.as_slice());
        toks.push(t);
    }
    toks
}


/// Whether two character vectors are equal.
pub fn chars_eq(a: &Vec<char>, b: &Vec<char>) -> (r: bool)
    ensures
        r == (a@ == b@),
{
    if a.len() != b.len() {
        return false;
    }
    let mut i: usize = 0;
    while i < a.len()
        invariant
            a@.len() == b@.len(),
            i <= a@.len(),
            forall|k: int| 0 <= k < i ==> a@[k] == b@[k],
        decreases a@.len() - i,
    {
        if a[i] != b[i] {
            return false;
        }
        i = i + 1;
    }
    proof {
        assert(a@ =~= b@);
    }
    true
}

/// Whether two strings hold the same characters.
pub fn str_eq(a: &str, b: &str) -> (r: bool)
    ensures
        r == (a@ == b@),
{
    let ca = chars_of(a);
    let cb = chars_of(b);
    chars_eq(&ca, &cb)
}


/// Whether two byte strings are equal.
pub fn bytes_eq(a: &[u8], b: &[u8]) -> (r: bool)
    ensures
        r == (a@ == b@),
{
    if a.len() != b.len() {
        return false;
    }
    let mut i: usize = 0;
    while i < a.len()
        invariant
            a@.len() == b@.len(),
            i <= a@.len(),
            forall|k: int| 0 <= k < i ==> a@[k] == b@[k],
        decreases a@.len() - i,
    {
        if a[i] != b[i] {
            return false;
        }
        i = i + 1;
    }
    proof {
        assert(a@ =~= b@);
    }
    true
}


/// Lexicographic order of texts by code point: the order of `String`'s
/// `Ord` (UTF-8 bytes compare as code points do).
pub open spec fn lex_lt(a: Seq<char>, b: Seq<char>) -> bool
    decreases a.len(),
{
    if a.len() == 0 {
        b.len() > 0
    } else if b.len() == 0 {
        false
    } else if a[0] != b[0] {
        (a[0] as int) < (b[0] as int)
    } else {
        lex_lt(a.drop_first(), b.drop_first())
    }
}

pub proof fn lemma_lex_irreflexive(a: Seq<char>)
    ensures
        !lex_lt(a, a),
    decreases a.len(),
{
    if a.len() > 0 {
        lemma_lex_irreflexive(a.drop_first());
    }
}

pub proof fn lemma_lex_total(a: Seq<char>, b: Seq<char>)
    requires
        a != b,
    ensures
        lex_lt(a, b) || lex_lt(b, a),
    decreases a.len(),
{
    if a.len() > 0 && b.len() > 0 && a[0] == b[0] {
        if a.drop_first() == b.drop_first() {
            assert(a =~= seq![a[0]] + a.drop_first());
            assert(b =~= seq![b[0]] + b.drop_first());
        }
        lemma_lex_total(a.drop_first(), b.drop_first());
    } else if a.len() > 0 && b.len() > 0 {
        assert((a[0] as int) != (b[0] as int));
    } else if a.len() == 0 && b.len() == 0 {
        assert(a =~= b);
    }
}

pub proof fn lemma_lex_trans(a: Seq<char>, b: Seq<char>, c: Seq<char>)
    requires
        lex_lt(a, b),
        lex_lt(b, c),
    ensures
        lex_lt(a, c),
    decreases a.len(),
{
    if a.len() > 0 && b.len() > 0 && c.len() > 0 && a[0] == b[0] && b[0] == c[0] {
        lemma_lex_trans(a.drop_first(), b.drop_first(), c.drop_first());
    }
}

pub proof fn lemma_lex_asym(a: Seq<char>, b: Seq<char>)
    requires
        lex_lt(a, b),
    ensures
        !lex_lt(b, a),
    decreases a.len(),
{
    if a.len() > 0 && b.len() > 0 && a[0] == b[0] {
        lemma_lex_asym(a.drop_first(), b.drop_first());
    }
}

/// Whether `a` comes before `b` in code-point order.
pub fn str_lt(a: &str, b: &str) -> (r: bool)
    ensures
        r == lex_lt(a@, b@),
{
    let ca = chars_of(a);
    let cb = chars_of(b);
    let mut i: usize = 0;
    proof {
        assert(ca@.skip(0) =~= ca@);
        assert(cb@.skip(0) =~= cb@);
    }
    while i < ca.len() && i < cb.len() && ca[i] == cb[i]
        invariant
            i <= ca@.len(),
            i <= cb@.len(),
            lex_lt(ca@, cb@) == lex_lt(ca@.skip(i as int), cb@.skip(i as int)),
        decreases ca@.len() - i,
    {
        proof {
            let x = ca@.skip(i as int);
            let y = cb@.skip(i as int);
            assert(x.drop_first() =~= ca@.skip(i + 1));
            assert(y.drop_first() =~= cb@.skip(i + 1));
        }
        i = i + 1;
    }
    proof {
        let x = ca@.skip(i as int);
        let y = cb@.skip(i as int);
        if i < ca@.len() && i < cb@.len() {
            assert(x[0] == ca@[i as int]);
            assert(y[0] == cb@[i as int]);
        }
    }
    if i == ca.len() {
        proof {
            assert(ca@.skip(i as int).len() == 0);
        }
        i < cb.len()
    } else if i == cb.len() {
        proof {
            assert(cb@.skip(i as int).len() == 0);
        }
        false
    } else {
        let x = ca[i];
        let y = cb[i];
        proof {
            assert(ca@.skip(i as int)[0] == x);
            assert(cb@.skip(i as int)[0] == y);
            assert(x != y);
        }
        x < y
    }
}


/// Whether `c` is an ASCII decimal digit.
pub open spec fn is_digit(c: char) -> bool {
    '0' <= c && c <= '9'
}

/// The value of a string of decimal digits.
pub open spec fn digits_value(d: Seq<char>) -> nat
    decreases d.len(),
{
    if d.len() == 0 {
        0
    } else {
        digits_value(d.drop_last()) * 10 + ((d.last() as int) - ('0' as int)) as nat
    }
}

/// All characters of `d` are decimal digits, and there is at least one.
pub open spec fn is_numeral(d: Seq<char>) -> bool {
    d.len() > 0 && forall|i: int| 0 <= i < d.len() ==> is_digit(#[trigger] d[i])
}

/// What `u32::from_str` accepts: an optional `+`, then decimal digits,
/// of a value that fits.
pub open spec fn spec_parse_u32(s: Seq<char>) -> Option<u32> {
    let d = if s.len() > 0 && s[0] == '+' { s.drop_first() } else { s };
    if is_numeral(d) && digits_value(d) <= u32::MAX {
        Some(digits_value(d) as u32)
    } else {
        None
    }
}

/// What `i32::from_str` accepts: an optional sign, then decimal digits, of
/// a value that fits.
pub open spec fn spec_parse_i32(s: Seq<char>) -> Option<i32> {
    if s.len() > 0 && s[0] == '-' {
        let d = s.drop_first();
        if is_numeral(d) && digits_value(d) <= 0x8000_0000 {
            Some((-(digits_value(d) as int)) as i32)
        } else {
            None
        }
    } else {
        let d = if s.len() > 0 && s[0] == '+' { s.drop_first() } else { s };
        if is_numeral(d) && digits_value(d) <= i32::MAX {
            Some(digits_value(d) as i32)
        } else {
            None
        }
    }
}

proof fn lemma_digits_grow(d: Seq<char>, k: int)
    requires
        0 <= k <= d.len(),
        forall|i: int| 0 <= i < d.len() ==> is_digit(#[trigger] d[i]),
    ensures
        digits_value(d.take(k)) <= digits_value(d),
    decreases d.len() - k,
{
    if k < d.len() {
        lemma_digits_grow(d, k + 1);
        assert(d.take(k + 1).drop_last() =~= d.take(k));
        assert(d.take(k + 1).last() == d[k]);
    } else {
        assert(d.take(k) =~= d);
    }
}

/// The value of the decimal digits of `cs` from `start` on, when they are
/// all digits, there is one at least, and the value is at most `bound`.
fn digits_up_to(cs: &Vec<char>, start: usize, bound: u64) -> (r: Option<u64>)
    requires
        start <= cs@.len(),
        9 <= bound,
    ensures
        ({
            let d = cs@.skip(start as int);
            r == if is_numeral(d) && digits_value(d) <= bound { Some(digits_value(d) as u64) } else { None::<u64> }
        }),
{
    let ghost d = cs@.skip(start as int);
    if start == cs.len() {
        return None;
    }
    let mut v: u64 = 0;
    let mut k: usize = start;
    while k < cs.len()
        invariant
            start <= k <= cs@.len(),
            d == cs@.skip(start as int),
            forall|i: int| 0 <= i < k - start ==> is_digit(#[trigger] d[i]),
            v as nat == digits_value(d.take(k - start)),
            v <= bound,
            9 <= bound,
        decreases cs@.len() - k,
    {
        let c = cs[k];
        assert(d[k - start] == c);
        if !('0' <= c && c <= '9') {
            return None;
        }
        let digit = (c as u32 - '0' as u32) as u64;
        proof {
            assert(d.take(k - start + 1).drop_last() =~= d.take(k - start));
            assert(d.take(k - start + 1).last() == c);
        }
        if v > (bound - digit) / 10 {
            proof {
                assert(v * 10 + digit > bound) by (nonlinear_arith)
                    requires
                        v > (bound - digit) / 10,
                        digit <= 9,
                        digit <= bound;
                if forall|i: int| 0 <= i < d.len() ==> is_digit(#[trigger] d[i]) {
                    lemma_digits_grow(d, k - start + 1);
                }
            }
            return None;
        }
        proof {
            assert(v * 10 + digit <= bound) by (nonlinear_arith)
                requires
                    v <= (bound - digit) / 10,
                    digit <= bound;
        }
        v = v * 10 + digit;
        k = k + 1;
    }
    proof {
        assert(d.take(k - start) =~= d);
    }
    Some(v)
}

/// `u32::from_str`, on the text `s`.
pub fn parse_u32(s: &str) -> (r: Option<u32>)
    ensures
        r == spec_parse_u32(s@),
{
    let cs = chars_of(s);
    let start: usize = if cs.len() > 0 && cs[0] == '+' { 1 } else { 0 };
    proof {
        if start == 1 {
            assert(cs@.skip(1) =~= s@.drop_first());
        } else {
            assert(cs@.skip(0) =~= s@);
        }
    }
    match digits_up_to(&cs, start, 0xffff_ffff) {
        Some(v) => Some(v as u32),
        None => None,
    }
}

/// `i32::from_str`, on the text `s`.
pub fn parse_i32(s: &str) -> (r: Option<i32>)
    ensures
        r == spec_parse_i32(s@),
{
    let cs = chars_of(s);
    if cs.len() > 0 && cs[0] == '-' {
        proof {
            assert(cs@.skip(1) =~= s@.drop_first());
        }
        match digits_up_to(&cs, 1, 0x8000_0000) {
            Some(v) => Some((0 - (v as i64)) as i32),
            None => None,
        }
    } else {
        let start: usize = if cs.len() > 0 && cs[0] == '+' { 1 } else { 0 };
        proof {
            if start == 1 {
                assert(cs@.skip(1) =~= s@.drop_first());
            } else {
                assert(cs@.skip(0) =~= s@);
            }
        }
        match digits_up_to(&cs, start, 0x7fff_ffff) {
            Some(v) => Some(v as i32),
            None => None,
        }
    }
}


/// `s` without its leading whitespace.
pub open spec fn trim_start_ws(s: Seq<char>) -> Seq<char>
    decreases s.len(),
{
    if s.len() > 0 && is_ws(s[0]) {
        trim_start_ws(s.drop_first())
    } else {
        s
    }
}

/// `s` without its trailing whitespace.
pub open spec fn trim_end_ws(s: Seq<char>) -> Seq<char>
    decreases s.len(),
{
    if s.len() > 0 && is_ws(s.last()) {
        trim_end_ws(s.drop_last())
    } else {
        s
    }
}

/// `s` without leading and trailing whitespace: what `str::trim` gives.
pub open spec fn trim_ws(s: Seq<char>) -> Seq<char> {
    trim_end_ws(trim_start_ws(s))
}

/// The characters of `cs` without trailing whitespace.
pub fn trim_end_chars(cs: &Vec<char>) -> (r: Vec<char>)
    ensures
        r@ == trim_end_ws(cs@),
{
    let mut b: usize = cs.len();
    proof {
        assert(cs@.take(b as int) =~= cs@);
    }
    while b > 0 && char_is_ws(cs[b - 1])
        invariant
            b <= cs@.len(),
            trim_end_ws(cs@) == trim_end_ws(cs@.take(b as int)),
        decreases b,
    {
        proof {
            assert(cs@.take(b as int).drop_last() =~= cs@.take(b - 1));
        }
        b = b - 1;
    }
    let mut r: Vec<char> = Vec::new();
    let mut k: usize = 0;
    while k < b
        invariant
            k <= b <= cs@.len(),
            r@ == cs@.take(k as int),
        decreases b - k,
    {
        r.push(cs[k]);
        proof {
            assert(cs@.take(k + 1) =~= cs@.take(k as int).push(cs@[k as int]));
        }
        k = k + 1;
    }
    proof {
        if b == 0 {
            assert(cs@.take(0) =~= Seq::<char>::empty());
        } else {
            assert(!is_ws(cs@.take(b as int).last()));
        }
    }
    r
}

/// `s` without leading and trailing whitespace.
pub fn trim(s: &str) -> (r: String)
    ensures
        r@ == trim_ws(s@),
{
    let cs = chars_of(s);
    let mut a: usize = 0;
    proof {
        assert(cs@.skip(0) =~= cs@);
    }
    while a < cs.len() && char_is_ws(cs[a])
        invariant
            a <= cs@.len(),
            cs@ == s@,
            trim_start_ws(s@) == trim_start_ws(cs@.skip(a as int)),
        decreases cs@.len() - a,
    {
        proof {
            assert(cs@.skip(a as int).drop_first() =~= cs@.skip(a + 1));
        }
        a = a + 1;
    }
    let mut rest: Vec<char> = Vec::new();
    let mut k: usize = a;
    while k < cs.len()
        invariant
            a <= k <= cs@.len(),
            rest@ == cs@.subrange(a as int, k as int),
        decreases cs@.len() - k,
    {
        rest.push(cs[k]);
        proof {
            assert(cs@.subrange(a as int, k + 1) =~= cs@.subrange(a as int, k as int).push(cs@[k as int]));
        }
        k = k + 1;
    }
    proof {
        assert(rest@ =~= cs@.skip(a as int));
        if a < cs@.len() {
            assert(!is_ws(cs@.skip(a as int)[0]));
        }
    }
    let t = trim_end_chars(&rest);
    string_from_chars(t.as_slice())
}

/// `p` is a prefix of `s`.
pub open spec fn starts_with(s: Seq<char>, p: Seq<char>) -> bool {
    p.len() <= s.len() && s.take(p.len() as int) == p
}

/// Whether the text `s` begins with `p`.
pub fn str_starts_with(s: &str, p: &str) -> (r: bool)
    ensures
        r == starts_with(s@, p@),
{
    let cs = chars_of(s);
    let cp = chars_of(p);
    if cp.len() > cs.len() {
        return false;
    }
    let mut i: usize = 0;
    while i < cp.len()
        invariant
            i <= cp@.len() <= cs@.len(),
            cs@ == s@,
            cp@ == p@,
            forall|k: int| 0 <= k < i ==> cs@[k] == cp@[k],
        decreases cp@.len() - i,
    {
        if cs[i] != cp[i] {
            proof {
                assert(cs@.take(cp@.len() as int)[i as int] != cp@[i as int]);
                assert(cs@ == s@ && cp@ == p@);
                assert(s@.take(p@.len() as int) != p@);
            }
            return false;
        }
        i = i + 1;
    }
    proof {
        assert(cs@.take(cp@.len() as int) =~= cp@);
    }
    true
}


/// The decimal digits of `n`.
pub open spec fn decimal(n: nat) -> Seq<char>
    decreases n,
{
    if n < 10 {
        seq![(n + ('0' as int)) as char]
    } else {
        decimal(n / 10).push(((n % 10) + ('0' as int)) as char)
    }
}

/// The decimal text of `n` is a numeral worth `n`, without a leading zero
/// (but for `0` itself).
pub proof fn lemma_decimal_value(n: nat)
    ensures
        is_numeral(decimal(n)),
        digits_value(decimal(n)) == n,
        decimal(n).len() == 1 || decimal(n)[0] != '0',
        decimal(n).len() == 1 ==> n < 10,
    decreases n,
{
    if n < 10 {
        let d = decimal(n);
        let c = (n + ('0' as int)) as char;
        assert(d == seq![c]);
        assert(c as int == n + ('0' as int));
        assert(d.drop_last() =~= Seq::<char>::empty());
        assert(digits_value(d) == digits_value(d.drop_last()) * 10 + ((c as int) - ('0' as int)) as nat);
    } else {
        let m = n / 10;
        let r = n % 10;
        lemma_decimal_value(m);
        let c = (r + ('0' as int)) as char;
        let d = decimal(n);
        assert(d == decimal(m).push(c));
        assert(c as int == r + ('0' as int));
        assert(d.drop_last() =~= decimal(m));
        assert(d.last() == c);
        assert(m * 10 + r == n) by (nonlinear_arith)
            requires
                m == n / 10,
                r == n % 10,
        ;
        assert forall|i: int| 0 <= i < d.len() implies is_digit(#[trigger] d[i]) by {
            if i < decimal(m).len() {
                assert(d[i] == decimal(m)[i]);
            }
        }
        assert(d[0] == decimal(m)[0]);
        if decimal(m).len() == 1 {
            assert(m >= 1);
            assert(decimal(m).drop_last() =~= Seq::<char>::empty());
            assert(digits_value(decimal(m)) == ((decimal(m)[0] as int) - ('0' as int)) as nat);
        }
    }
}

/// The decimal text of `n`.
pub fn usize_to_decimal(n: usize) -> (r: String)
    ensures
        r@ == decimal(n as nat),
{
    // Digits from the last one.
    let mut rev: Vec<char> = Vec::new();
    let mut m: usize = n;
    proof {
        assert(decimal(n as nat) =~= decimal(m as nat) + rev@.reverse());
    }
    while m >= 10
        invariant
            decimal(n as nat) == decimal(m as nat) + rev@.reverse(),
        decreases m,
    {
        let c = char_of_digit((m % 10) as u32);
        proof {
            assert(decimal(m as nat) == decimal((m / 10) as nat).push(c));
            assert(decimal((m / 10) as nat) + rev@.push(c).reverse() =~= decimal((m / 10) as nat).push(c) + rev@.reverse());
        }
        rev.push(c);
        m = m / 10;
    }
    let c = char_of_digit(m as u32);
    proof {
        assert(decimal(m as nat) == seq![c]);
        assert(rev@.push(c).reverse() =~= seq![c] + rev@.reverse());
    }
    rev.push(c);
    let mut out: Vec<char> = Vec::new();
    let mut k: usize = rev.len();
    while k > 0
        invariant
            k <= rev@.len(),
            out@ == rev@.reverse().take(rev@.len() - k),
        decreases k,
    {
        k = k - 1;
        out.push(rev[k]);
        proof {
            assert(rev@.reverse().take(rev@.len() - k) =~= rev@.reverse().take(rev@.len() - k - 1).push(rev@[k as int]));
        }
    }
    proof {
        assert(out@ =~= rev@.reverse());
    }
    string_from_chars(out.as_slice())
}

/// The character of a decimal digit.
fn char_of_digit(d: u32) -> (c: char)
    requires
        d < 10,
    ensures
        c == ((d as int) + ('0' as int)) as char,
        '0' <= c && c <= '9',
{
    match d {
        0 => '0',
        1 => '1',
        2 => '2',
        3 => '3',
        4 => '4',
        5 => '5',
        6 => '6',
        7 => '7',
        8 => '8',
        _ => '9',
    }
}

} // verus!
