//! Character-level text operations: whitespace, trimming, building strings.

use vstd::prelude::*;
use vstd::std_specs::iter::IteratorSpec;

verus! {

broadcast use vstd::string::group_string_axioms;

/// The Unicode `White_Space` property, the set that `char::is_whitespace`
/// (and so `str::trim` and `str::split_whitespace`) uses.
pub open spec fn is_white_space(c: char) -> bool {
    let u = c as u32;
    ||| 0x9 <= u <= 0xd
    ||| u == 0x20
    ||| u == 0x85
    ||| u == 0xa0
    ||| u == 0x1680
    ||| 0x2000 <= u <= 0x200a
    ||| u == 0x2028
    ||| u == 0x2029
    ||| u == 0x202f
    ||| u == 0x205f
    ||| u == 0x3000
}

/// Tests the Unicode `White_Space` property.
pub fn white_space(c: char) -> (r: bool)
    ensures
        r == is_white_space(c),
{
    let u = c as u32;
    (0x9 <= u && u <= 0xd) || u == 0x20 || u == 0x85 || u == 0xa0 || u == 0x1680 || (0x2000
        <= u && u <= 0x200a) || u == 0x2028 || u == 0x2029 || u == 0x202f || u == 0x205f || u
        == 0x3000
}

/// Appends one character to a string (`String::push`).
#[verifier::external_body]
pub(crate) fn push_char(s: &mut String, c: char)
    ensures
        final(s)@ == old(s)@.push(c),
{
    s.push(c);
}

/// The characters of a string, in order.
pub fn chars_of(s: &str) -> (r: Vec<char>)
    ensures
        r@ == s@,
{
    let mut it = s.chars();
    let mut r: Vec<char> = Vec::new();
    loop
        invariant
            r@ + it.remaining() == s@,
            it.decrease() is Some,
        decreases it.decrease()->0,
    {
        let ghost before = it.remaining();
        match it.next() {
            Some(c) => {
                r.push(c);
                assert(r@ + it.remaining() =~= s@) by {
                    assert(before =~= seq![c] + it.remaining());
                }
            },
            None => {
                assert(r@ =~= s@);
                return r;
            },
        }
    }
}

/// A string holding `chars[lo..hi]`.
pub fn string_of(chars: &Vec<char>, lo: usize, hi: usize) -> (r: String)
    requires
        lo <= hi <= chars@.len(),
    ensures
        r@ == chars@.subrange(lo as int, hi as int),
{
    let mut r = String::new();
    let mut i = lo;
    while i < hi
        invariant
            lo <= i <= hi <= chars@.len(),
            r@ == chars@.subrange(lo as int, i as int),
        decreases hi - i,
    {
        push_char(&mut r, chars[i]);
        assert(r@ =~= chars@.subrange(lo as int, i + 1));
        i = i + 1;
    }
    r
}

/// What `str::trim_start` leaves.
pub open spec fn trim_front(s: Seq<char>) -> Seq<char>
    decreases s.len(),
{
    if s.len() > 0 && is_white_space(s[0]) {
        trim_front(s.drop_first())
    } else {
        s
    }
}

/// What `str::trim_end` leaves.
pub open spec fn trim_back(s: Seq<char>) -> Seq<char>
    decreases s.len(),
{
    if s.len() > 0 && is_white_space(s.last()) {
        trim_back(s.drop_last())
    } else {
        s
    }
}

/// What `str::trim` leaves: no leading and no trailing white space.
pub open spec fn trim(s: Seq<char>) -> Seq<char> {
    trim_back(trim_front(s))
}

/// `s` with leading and trailing white space removed (`str::trim`).
pub fn trimmed(s: &str) -> (r: String)
    ensures
        r@ == trim(s@),
{
    let cs = chars_of(s);
    let n = cs.len();
    let mut lo: usize = 0;
    assert(cs@.subrange(0, n as int) =~= cs@);
    while lo < n && white_space(cs[lo])
        invariant
            lo <= n == cs@.len(),
            trim_front(cs@) == trim_front(cs@.subrange(lo as int, n as int)),
        decreases n - lo,
    {
        assert(cs@.subrange(lo as int, n as int).drop_first() =~= cs@.subrange(lo + 1, n as int));
        lo = lo + 1;
    }
    assert(trim_front(cs@) == cs@.subrange(lo as int, n as int));
    let mut hi: usize = n;
    while hi > lo && white_space(cs[hi - 1])
        invariant
            lo <= hi <= n == cs@.len(),
            trim_back(cs@.subrange(lo as int, n as int)) == trim_back(
                cs@.subrange(lo as int, hi as int),
            ),
        decreases hi - lo,
    {
        assert(cs@.subrange(lo as int, hi as int).drop_last() =~= cs@.subrange(
            lo as int,
            hi - 1,
        ));
        hi = hi - 1;
    }
    string_of(&cs, lo, hi)
}


/// `t` stands in `s` at position `k` as a whole white-space separated token:
/// one of the pieces that `str::split_whitespace` yields.
pub open spec fn token_at(s: Seq<char>, k: int, t: Seq<char>) -> bool {
    &&& t.len() > 0
    &&& 0 <= k
    &&& k + t.len() <= s.len()
    &&& s.subrange(k, k + t.len()) == t
    &&& forall|j: int| 0 <= j < t.len() ==> !is_white_space(#[trigger] t[j])
    &&& (k == 0 || is_white_space(s[k - 1]))
    &&& (k + t.len() == s.len() || is_white_space(s[k + t.len()]))
}

/// `str::split_whitespace` on `s` yields `t`.
pub open spec fn has_token(s: Seq<char>, t: Seq<char>) -> bool {
    exists|k: int| #[trigger] token_at(s, k, t)
}

/// Whether `chars[k..k + t.len()]` equals `t`.
fn equal_at(chars: &Vec<char>, k: usize, t: &Vec<char>) -> (r: bool)
    requires
        k + t@.len() <= chars@.len(),
    ensures
        r == (chars@.subrange(k as int, k + t@.len()) == t@),
{
    let mut j: usize = 0;
    let n = t.len();
    let m = chars.len();
    while j < n
        invariant
            j <= n == t@.len(),
            m == chars@.len(),
            k + n <= m,
            forall|i: int| 0 <= i < j ==> chars@[k + i] == t@[i],
        decreases t@.len() - j,
    {
        if chars[k + j] != t[j] {
            assert(chars@.subrange(k as int, k + t@.len())[j as int] != t@[j as int]);
            return false;
        }
        j = j + 1;
    }
    assert(chars@.subrange(k as int, k + t@.len()) =~= t@);
    true
}

/// Whether any character of `t` is white space.
fn any_white_space(t: &Vec<char>) -> (r: bool)
    ensures
        r == exists|j: int| 0 <= j < t@.len() && is_white_space(#[trigger] t@[j]),
{
    let mut j: usize = 0;
    while j < t.len()
        invariant
            j <= t@.len(),
            forall|i: int| 0 <= i < j ==> !is_white_space(#[trigger] t@[i]),
        decreases t@.len() - j,
    {
        if white_space(t[j]) {
            return true;
        }
        j = j + 1;
    }
    false
}

/// Whether `t` is one of the white-space separated tokens of `s`
/// (`s.split_whitespace().any(|x| x == t)`).
pub fn contains_token(s: &str, t: &str) -> (r: bool)
    ensures
        r == has_token(s@, t@),
{
    let cs = chars_of(s);
    let ts = chars_of(t);
    if ts.len() == 0 || any_white_space(&ts) || ts.len() > cs.len() {
        return false;
    }
    let nt = ts.len();
    let nc = cs.len();
    let last = nc - nt;
    let mut k: usize = 0;
    while k <= last
        invariant
            nt == ts@.len() > 0,
            nc == cs@.len(),
            cs@ == s@,
            ts@ == t@,
            last + nt == nc,
            forall|j: int| 0 <= j < ts@.len() ==> !is_white_space(#[trigger] ts@[j]),
            forall|i: int| 0 <= i < k ==> !token_at(cs@, i, ts@),
        decreases last + 1 - k,
    {
        let before = k == 0 || white_space(cs[k - 1]);
        let after = k == last || white_space(cs[k + nt]);
        if before && after && equal_at(&cs, k, &ts) {
            assert(token_at(cs@, k as int, ts@));
            return true;
        }
        k = k + 1;
    }
    assert forall|i: int| !token_at(cs@, i, ts@) by {
        if 0 <= i && i + ts@.len() <= cs@.len() {
            assert(i < k);
        }
    }
    false
}

/// `s` with every occurrence of `c` removed (`str::replace` of a one-character
/// pattern by the empty string).
pub open spec fn without_char(s: Seq<char>, c: char) -> Seq<char>
    decreases s.len(),
{
    if s.len() == 0 {
        s
    } else if s.last() == c {
        without_char(s.drop_last(), c)
    } else {
        without_char(s.drop_last(), c).push(s.last())
    }
}

/// Removes every occurrence of `c` from `s`.
pub fn remove_char(s: &str, c: char) -> (r: String)
    ensures
        r@ == without_char(s@, c),
{
    let cs = chars_of(s);
    let mut r = String::new();
    let mut i: usize = 0;
    while i < cs.len()
        invariant
            i <= cs@.len(),
            r@ == without_char(cs@.subrange(0, i as int), c),
        decreases cs@.len() - i,
    {
        assert(cs@.subrange(0, i + 1).drop_last() =~= cs@.subrange(0, i as int));
        if cs[i] != c {
            push_char(&mut r, cs[i]);
        }
        i = i + 1;
    }
    assert(cs@.subrange(0, cs@.len() as int) =~= cs@);
    r
}

/// The character of the decimal digit `d`.
pub open spec fn digit_char(d: nat) -> char {
    (48 + d) as char
}

/// The decimal numeral of `n`, without leading zeros (what `Display`
/// writes for an unsigned integer).
pub open spec fn decimal(n: nat) -> Seq<char>
    decreases n,
{
    if n < 10 {
        seq![digit_char(n)]
    } else {
        decimal(n / 10).push(digit_char(n % 10))
    }
}

/// Appends the decimal numeral of `n` to `s`.
pub fn push_decimal(s: &mut String, n: u16)
    ensures
        final(s)@ == old(s)@ + decimal(n as nat),
    decreases n,
{
    if n >= 10 {
        push_decimal(s, n / 10);
    }
    let d: u8 = (n % 10) as u8;
    let c = (48u8 + d) as char;
    assert(c == digit_char((n % 10) as nat));
    push_char(s, c);
    assert(final(s)@ =~= old(s)@ + decimal(n as nat));
}


/// An ASCII decimal digit.
pub open spec fn is_digit(c: char) -> bool {
    48 <= (c as u32) <= 57
}

/// A non-empty run of ASCII decimal digits.
pub open spec fn all_digits(d: Seq<char>) -> bool {
    &&& d.len() > 0
    &&& forall|i: int| 0 <= i < d.len() ==> is_digit(#[trigger] d[i])
}

/// The number that a run of decimal digits writes.
pub open spec fn digits_value(d: Seq<char>) -> nat
    decreases d.len(),
{
    if d.len() == 0 {
        0
    } else {
        digits_value(d.drop_last()) * 10 + ((d.last() as u32) - 48) as nat
    }
}

/// What follows an optional leading `+`.
pub open spec fn without_plus(s: Seq<char>) -> Seq<char> {
    if s.len() > 0 && s[0] == '+' {
        s.drop_first()
    } else {
        s
    }
}

/// What `str::parse::<u32>` accepts and gives: an optional `+`, then one or
/// more ASCII digits whose value fits in a `u32`.
pub open spec fn parse_u32_spec(s: Seq<char>) -> Option<u32> {
    let d = without_plus(s);
    if all_digits(d) && digits_value(d) <= u32::MAX {
        Some(digits_value(d) as u32)
    } else {
        None
    }
}

/// What `str::parse::<i32>` accepts and gives: an optional sign, then one or
/// more ASCII digits, the value in range of an `i32`.
pub open spec fn parse_i32_spec(s: Seq<char>) -> Option<i32> {
    if s.len() > 0 && s[0] == '-' {
        let d = s.drop_first();
        if all_digits(d) && digits_value(d) <= 0x8000_0000 {
            Some((0 - digits_value(d)) as i32)
        } else {
            None
        }
    } else {
        let d = without_plus(s);
        if all_digits(d) && digits_value(d) <= i32::MAX {
            Some(digits_value(d) as i32)
        } else {
            None
        }
    }
}

/// A prefix of a digit run writes no larger a number than the whole run.
proof fn lemma_digits_prefix_le(d: Seq<char>, k: int)
    requires
        0 <= k <= d.len(),
        forall|i: int| 0 <= i < d.len() ==> is_digit(#[trigger] d[i]),
    ensures
        digits_value(d.subrange(0, k)) <= digits_value(d),
    decreases d.len(),
{
    if k < d.len() {
        let p = d.drop_last();
        assert(p.subrange(0, k) =~= d.subrange(0, k));
        assert forall|i: int| 0 <= i < p.len() implies is_digit(#[trigger] p[i]) by {
            assert(p[i] == d[i]);
        }
        lemma_digits_prefix_le(p, k);
        let v = digits_value(p);
        assert(v <= v * 10) by (nonlinear_arith);
    } else {
        assert(d.subrange(0, k) =~= d);
    }
}

/// The value of `cs[start..]` when it is a digit run whose value is at
/// most `limit`.
fn digits_at_most(cs: &Vec<char>, start: usize, limit: u64) -> (r: Option<u64>)
    requires
        start <= cs@.len(),
        limit <= 0x1_0000_0000,
    ensures
        ({
            let d = cs@.subrange(start as int, cs@.len() as int);
            match r {
                Some(v) => all_digits(d) && digits_value(d) <= limit && v == digits_value(d),
                None => !(all_digits(d) && digits_value(d) <= limit),
            }
        }),
{
    let n = cs.len();
    if start == n {
        return None;
    }
    let ghost full = cs@.subrange(start as int, n as int);
    let mut acc: u64 = 0;
    let mut j = start;
    while j < n
        invariant
            start <= j <= n == cs@.len(),
            limit <= 0x1_0000_0000,
            full == cs@.subrange(start as int, n as int),
            acc == digits_value(cs@.subrange(start as int, j as int)),
            acc <= limit,
            forall|i: int| start <= i < j ==> is_digit(#[trigger] cs@[i]),
        decreases n - j,
    {
        let c = cs[j];
        let u = c as u32;
        if u < 48 || u > 57 {
            assert(full[j - start] == c);
            return None;
        }
        let ghost prefix = cs@.subrange(start as int, j + 1);
        assert(prefix.drop_last() =~= cs@.subrange(start as int, j as int));
        acc = acc * 10 + (u - 48) as u64;
        j = j + 1;
        if acc > limit {
            proof {
                if all_digits(full) {
                    assert(full.subrange(0, j - start) =~= prefix);
                    lemma_digits_prefix_le(full, j - start);
                }
            }
            return None;
        }
    }
    assert(cs@.subrange(start as int, j as int) =~= full);
    Some(acc)
}

/// `s.parse::<u32>()`, with the error dropped.
pub fn parse_u32(s: &str) -> (r: Option<u32>)
    ensures
        r == parse_u32_spec(s@),
{
    let cs = chars_of(s);
    let start: usize = if cs.len() > 0 && cs[0] == '+' { 1 } else { 0 };
    assert(cs@.subrange(start as int, cs@.len() as int) =~= without_plus(s@));
    match digits_at_most(&cs, start, 0xffff_ffff) {
        Some(v) => Some(v as u32),
        None => None,
    }
}

/// `s.parse::<i32>()`, with the error dropped.
pub fn parse_i32(s: &str) -> (r: Option<i32>)
    ensures
        r == parse_i32_spec(s@),
{
    let cs = chars_of(s);
    if cs.len() > 0 && cs[0] == '-' {
        assert(cs@.subrange(1, cs@.len() as int) =~= s@.drop_first());
        match digits_at_most(&cs, 1, 0x8000_0000) {
            Some(v) => {
                let r = (0i64 - v as i64) as i32;
                Some(r)
            },
            None => None,
        }
    } else {
        let start: usize = if cs.len() > 0 && cs[0] == '+' { 1 } else { 0 };
        assert(cs@.subrange(start as int, cs@.len() as int) =~= without_plus(s@));
        match digits_at_most(&cs, start, 0x7fff_ffff) {
            Some(v) => Some(v as i32),
            None => None,
        }
    }
}

/// The pieces joined with `sep` between each two (`[String]::join`).
pub open spec fn joined(parts: Seq<Seq<char>>, sep: Seq<char>) -> Seq<char>
    decreases parts.len(),
{
    if parts.len() == 0 {
        Seq::empty()
    } else if parts.len() == 1 {
        parts[0]
    } else {
        joined(parts.drop_last(), sep) + sep + parts.last()
    }
}

/// The views of a vector of strings.
pub open spec fn views(v: Seq<String>) -> Seq<Seq<char>> {
    v.map_values(|x: String| x@)
}

/// The strings of `parts` joined with `sep` between each two.
pub fn join_with(parts: &Vec<String>, sep: &str) -> (r: String)
    ensures
        r@ == joined(views(parts@), sep@),
{
    let mut r = String::new();
    let mut i: usize = 0;
    while i < parts.len()
        invariant
            i <= parts@.len(),
            r@ == joined(views(parts@).take(i as int), sep@),
        decreases parts@.len() - i,
    {
        let ghost before = views(parts@).take(i as int);
        let ghost after = views(parts@).take(i + 1);
        assert(after.drop_last() =~= before);
        if i > 0 {
            r.append(sep);
        }
        r.append(parts[i].as_str());
        proof {
            if i == 0 {
                assert(r@ =~= after[0]);
            }
        }
        i = i + 1;
    }
    assert(views(parts@).take(parts@.len() as int) =~= views(parts@));
    r
}

/// The part of `s` after its last `c` (all of `s` when it holds no `c`):
/// the last piece of `str::split` by `c`.
pub open spec fn after_last(s: Seq<char>, c: char) -> Seq<char>
    decreases s.len(),
{
    if s.len() == 0 {
        s
    } else if s.last() == c {
        Seq::empty()
    } else {
        after_last(s.drop_last(), c).push(s.last())
    }
}

/// The last piece of `s.split(c)`.
pub fn last_piece(s: &str, c: char) -> (r: String)
    ensures
        r@ == after_last(s@, c),
{
    let cs = chars_of(s);
    let n = cs.len();
    let mut i = n;
    assert(cs@.subrange(0, n as int) =~= cs@);
    assert(cs@.subrange(n as int, n as int) =~= Seq::<char>::empty());
    while i > 0 && cs[i - 1] != c
        invariant
            i <= n == cs@.len(),
            cs@ == s@,
            after_last(cs@, c) == after_last(cs@.subrange(0, i as int), c) + cs@.subrange(
                i as int,
                n as int,
            ),
        decreases i,
    {
        let ghost pre = cs@.subrange(0, i as int);
        assert(pre.drop_last() =~= cs@.subrange(0, i - 1));
        assert(cs@.subrange(i - 1, n as int) =~= seq![pre.last()] + cs@.subrange(i as int, n as int));
        assert(after_last(pre, c) == after_last(pre.drop_last(), c).push(pre.last()));
        assert(after_last(cs@.subrange(0, i - 1), c) + cs@.subrange(i - 1, n as int) =~= after_last(
            pre.drop_last(),
            c,
        ).push(pre.last()) + cs@.subrange(i as int, n as int));
        i = i - 1;
    }
    assert(cs@.subrange(0, 0) =~= Seq::<char>::empty());
    string_of(&cs, i, n)
}


/// The numeral written for `n` reads back as `n`: it is a run of decimal
/// digits whose value is `n`, with no leading zero unless `n` is zero.
pub proof fn lemma_decimal_reads_back(n: nat)
    ensures
        all_digits(decimal(n)),
        digits_value(decimal(n)) == n,
        decimal(n)[0] == '0' ==> n == 0 && decimal(n).len() == 1,
    decreases n,
{
    if n < 10 {
        let d = decimal(n);
        assert(d.drop_last() =~= Seq::<char>::empty());
        assert((digit_char(n) as u32) == 48 + n);
        assert(d.last() == digit_char(n));
        assert(digits_value(d.drop_last()) == 0);
        assert(digits_value(d) == digits_value(d.drop_last()) * 10 + ((d.last() as u32) - 48) as nat);
    } else {
        lemma_decimal_reads_back(n / 10);
        let q = decimal(n / 10);
        let d = decimal(n);
        assert(d.drop_last() =~= q);
        assert((digit_char(n % 10) as u32) == 48 + n % 10);
        assert(d[0] == q[0]);
        assert(d.last() == digit_char(n % 10));
        assert(digits_value(d) == digits_value(d.drop_last()) * 10 + ((d.last() as u32) - 48) as nat);
        assert(digits_value(d) == (n / 10) * 10 + n % 10);
        assert(n == (n / 10) * 10 + n % 10) by (nonlinear_arith);
        assert(n / 10 > 0);
    }
}


/// Trimming keeps a contiguous middle of `s`: all that is cut off at either
/// end is white space, and what is kept neither begins nor ends with it.
pub proof fn lemma_trim_cuts_white_space(s: Seq<char>)
    ensures
        exists|lo: int, hi: int|
            0 <= lo <= hi <= s.len() && trim(s) == s.subrange(lo, hi) && (forall|k: int|
                0 <= k < lo ==> is_white_space(#[trigger] s[k])) && (forall|k: int|
                hi <= k < s.len() ==> is_white_space(#[trigger] s[k])),
        trim(s).len() > 0 ==> !is_white_space(trim(s)[0]) && !is_white_space(trim(s).last()),
{
    lemma_trim_front(s);
    let f = trim_front(s);
    let lo = s.len() - f.len();
    lemma_trim_back(f);
    let hi = lo + trim_back(f).len();
    assert(trim(s) =~= s.subrange(lo, hi)) by {
        assert(f =~= s.subrange(lo, s.len() as int));
        assert(trim_back(f) =~= f.subrange(0, trim_back(f).len() as int));
    }
    assert forall|k: int| hi <= k < s.len() implies is_white_space(#[trigger] s[k]) by {
        assert(s[k] == f[k - lo]);
    }
    if trim(s).len() > 0 {
        assert(trim(s)[0] == f[0]);
    }
}

/// `trim_front` drops a white-space prefix and leaves no white space first.
proof fn lemma_trim_front(s: Seq<char>)
    ensures
        trim_front(s).len() <= s.len(),
        trim_front(s) == s.subrange(s.len() - trim_front(s).len(), s.len() as int),
        forall|k: int| 0 <= k < s.len() - trim_front(s).len() ==> is_white_space(#[trigger] s[k]),
        trim_front(s).len() > 0 ==> !is_white_space(trim_front(s)[0]),
    decreases s.len(),
{
    if s.len() > 0 && is_white_space(s[0]) {
        let t = s.drop_first();
        lemma_trim_front(t);
        assert(trim_front(s) == trim_front(t));
        assert(t.subrange(t.len() - trim_front(t).len(), t.len() as int) =~= s.subrange(
            s.len() - trim_front(s).len(),
            s.len() as int,
        ));
        assert forall|k: int| 0 <= k < s.len() - trim_front(s).len() implies is_white_space(#[trigger] s[k]) by {
            if k > 0 {
                assert(s[k] == t[k - 1]);
            }
        }
    } else {
        assert(s.subrange(0, s.len() as int) =~= s);
    }
}

/// `trim_back` drops a white-space suffix and leaves no white space last.
proof fn lemma_trim_back(s: Seq<char>)
    ensures
        trim_back(s).len() <= s.len(),
        trim_back(s) == s.subrange(0, trim_back(s).len() as int),
        forall|k: int| trim_back(s).len() <= k < s.len() ==> is_white_space(#[trigger] s[k]),
        trim_back(s).len() > 0 ==> !is_white_space(trim_back(s).last()),
        trim_back(s).len() > 0 ==> trim_back(s)[0] == s[0],
    decreases s.len(),
{
    if s.len() > 0 && is_white_space(s.last()) {
        let t = s.drop_last();
        lemma_trim_back(t);
        assert(t.subrange(0, trim_back(t).len() as int) =~= s.subrange(0, trim_back(s).len() as int));
        assert forall|k: int| trim_back(s).len() <= k < s.len() implies is_white_space(#[trigger] s[k]) by {
            if k < s.len() - 1 {
                assert(s[k] == t[k]);
            }
        }
    } else {
        assert(s.subrange(0, s.len() as int) =~= s);
    }
}

/// Removing a character keeps every other character, in order: it is `s`
/// filtered by being different from `c`.
pub proof fn lemma_without_char_is_filter(s: Seq<char>, c: char)
    ensures
        without_char(s, c) == s.filter(|x: char| x != c),
    decreases s.len(),
{
    reveal(Seq::filter);
    if s.len() > 0 {
        lemma_without_char_is_filter(s.drop_last(), c);
    }
}

/// Parsing reads back the numeral that `decimal` writes: every `u32` and
/// every non-negative `i32`.
pub proof fn lemma_parse_reads_decimal(n: nat)
    ensures
        n <= u32::MAX ==> parse_u32_spec(decimal(n)) == Some(n as u32),
        n <= i32::MAX ==> parse_i32_spec(decimal(n)) == Some(n as i32),
{
    lemma_decimal_reads_back(n);
    let d = decimal(n);
    assert(is_digit(d[0]));
    assert(d[0] != '+' && d[0] != '-');
}


/// A string with no white space is one whole token: it holds the token `t`
/// exactly when it is `t` (and not empty).
pub proof fn lemma_single_token(s: Seq<char>, t: Seq<char>)
    requires
        forall|j: int| 0 <= j < s.len() ==> !is_white_space(#[trigger] s[j]),
    ensures
        has_token(s, t) <==> (s.len() > 0 && t == s),
{
    if has_token(s, t) {
        let k = choose|k: int| #[trigger] token_at(s, k, t);
        if k > 0 {
            assert(!is_white_space(s[k - 1]));
        }
        if k + t.len() < s.len() {
            assert(!is_white_space(s[k + t.len()]));
        }
        assert(s.subrange(0, s.len() as int) =~= s);
    }
    if s.len() > 0 && t == s {
        assert(s.subrange(0, s.len() as int) =~= s);
        assert(token_at(s, 0, t));
    }
}

} // verus!
