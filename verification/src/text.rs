//! Character-level string helpers shared by the parsers.

use vstd::prelude::*;

verus! {

/// The characters of a string slice, in order.
pub fn chars_of(s: &str) -> (r: Vec<char>)
    ensures
        r@ == s@,
{
    let mut r: Vec<char> = Vec::new();
    for c in it: s.chars()
        invariant
            it.seq() == s@,
            r@ == it.seq().take(it.index() as int),
    {
        r.push(c);
    }
    r
}

/// Collects characters into an owned string (`FromIterator<char>` for `String`).
#[verifier::external_body]
pub(crate) fn string_from_chars(v: &Vec<char>) -> (r: String)
    ensures
        r@ == v@,
{
    v.iter().collect()
}

/// String slice equality: equal exactly when the character sequences are.
pub fn str_eq(a: &str, b: &str) -> (r: bool)
    ensures
        r == (a@ == b@),
{
    let x = chars_of(a);
    let y = chars_of(b);
    if x.len() != y.len() {
        return false;
    }
    let mut i: usize = 0;
    while i < x.len()
        invariant
            i <= x@.len(),
            x@.len() == y@.len(),
            x@ == a@,
            y@ == b@,
            forall|j: int| 0 <= j < i ==> x@[j] == y@[j],
        decreases x.len() - i,
    {
        if x[i] != y[i] {
            return false;
        }
        i += 1;
    }
    assert(x@ =~= y@);
    true
}

/// `needle` occurs in `hay` as a contiguous run (an empty needle always does).
pub open spec fn contains_seq(hay: Seq<char>, needle: Seq<char>) -> bool {
    exists|k: int|
        0 <= k && k + needle.len() <= hay.len() && #[trigger] hay.subrange(k, k + needle.len())
            == needle
}

/// `needle` occurs in `hay` at position `k`.
pub open spec fn occurs_at(hay: Seq<char>, needle: Seq<char>, k: int) -> bool {
    0 <= k && k + needle.len() <= hay.len() && hay.subrange(k, k + needle.len()) == needle
}

fn matches_at(hay: &Vec<char>, needle: &Vec<char>, k: usize) -> (r: bool)
    requires
        k + needle@.len() <= hay@.len(),
    ensures
        r == (hay@.subrange(k as int, k + needle@.len()) == needle@),
{
    let mut j: usize = 0;
    while j < needle.len()
        invariant
            k + needle@.len() <= hay@.len(),
            j <= needle@.len(),
            forall|t: int| 0 <= t < j ==> hay@[k + t] == needle@[t],
        decreases needle.len() - j,
    {
        assert(k + j < hay@.len());
        assert(hay@.len() == hay.len());
        if hay[k + j] != needle[j] {
            assert(hay@.subrange(k as int, k + needle@.len())[j as int] != needle@[j as int]);
            return false;
        }
        j += 1;
    }
    assert(hay@.subrange(k as int, k + needle@.len()) == needle@);
    true
}

/// Whether `needle` occurs in `hay` (`str::contains` on character sequences).
pub fn contains_chars(hay: &Vec<char>, needle: &Vec<char>) -> (r: bool)
    ensures
        r == contains_seq(hay@, needle@),
{
    if needle.len() > hay.len() {
        return false;
    }
    let last = hay.len() - needle.len();
    let mut k: usize = 0;
    while k <= last
        invariant
            k <= last,
            last + needle@.len() == hay@.len(),
            forall|t: int| 0 <= t < k ==> !occurs_at(hay@, needle@, t),
        decreases last + 1 - k,
    {
        if matches_at(hay, needle, k) {
            assert(occurs_at(hay@, needle@, k as int));
            return true;
        }
        if k == last {
            assert forall|t: int|
                0 <= t && t + needle@.len() <= hay@.len() implies #[trigger] hay@.subrange(
                t,
                t + needle@.len(),
            ) != needle@ by {
                if t < k {
                    assert(!occurs_at(hay@, needle@, t));
                }
            }
            return false;
        }
        k += 1;
    }
    false
}

/// ASCII lower-casing of one character; every other character is kept.
pub open spec fn ascii_lower_char(c: char) -> char {
    if 'A' <= c <= 'Z' {
        ((c as u32) + 32) as char
    } else {
        c
    }
}

/// `str::to_ascii_lowercase` on a character sequence.
pub open spec fn ascii_lower(s: Seq<char>) -> Seq<char> {
    Seq::new(s.len(), |i: int| ascii_lower_char(s[i]))
}

fn lower_char(c: char) -> (r: char)
    ensures
        r == ascii_lower_char(c),
{
    if 'A' <= c && c <= 'Z' {
        let b: u8 = (c as u32 + 32) as u8;
        b as char
    } else {
        c
    }
}

pub fn ascii_lowercase(s: &Vec<char>) -> (r: Vec<char>)
    ensures
        r@ == ascii_lower(s@),
{
    let mut r: Vec<char> = Vec::new();
    let mut i: usize = 0;
    while i < s.len()
        invariant
            i <= s@.len(),
            r@.len() == i,
            forall|j: int| 0 <= j < i ==> r@[j] == ascii_lower_char(s@[j]),
        decreases s.len() - i,
    {
        r.push(lower_char(s[i]));
        i += 1;
    }
    assert(r@ == ascii_lower(s@));
    r
}

/// Unicode `White_Space`, the set `char::is_whitespace` tests.
pub open spec fn is_white_space(c: char) -> bool {
    let u = c as u32;
    ||| 0x9 <= u <= 0xd
    ||| u == 0x20
    ||| u == 0x85
    ||| u == 0xa0
    ||| u == 0x1680
    ||| 0x2000 <= u <= 0x200a
    ||| u == 0x2028
    ||| u == 0x2029
    ||| u == 0x202f
    ||| u == 0x205f
    ||| u == 0x3000
}

pub fn is_whitespace_char(c: char) -> (r: bool)
    ensures
        r == is_white_space(c),
{
    let u = c as u32;
    (0x9 <= u && u <= 0xd) || u == 0x20 || u == 0x85 || u == 0xa0 || u == 0x1680 || (0x2000 <= u
        && u <= 0x200a) || u == 0x2028 || u == 0x2029 || u == 0x202f || u == 0x205f || u == 0x3000
}

/// `s` without its leading white space.
pub open spec fn trim_start_spec(s: Seq<char>) -> Seq<char>
    decreases s.len(),
{
    if s.len() > 0 && is_white_space(s[0]) {
        trim_start_spec(s.drop_first())
    } else {
        s
    }
}

/// `s` without its trailing white space.
pub open spec fn trim_end_spec(s: Seq<char>) -> Seq<char>
    decreases s.len(),
{
    if s.len() > 0 && is_white_space(s.last()) {
        trim_end_spec(s.drop_last())
    } else {
        s
    }
}

/// `str::trim`: leading and trailing white space removed.
pub open spec fn trim_spec(s: Seq<char>) -> Seq<char> {
    trim_end_spec(trim_start_spec(s))
}

/// `str::trim`: the slice without leading and trailing Unicode white space.
#[verifier::external_body]
pub(crate) fn trim(s: &str) -> (r: &str)
    ensures
        r@ == trim_spec(s@),
{
    s.trim()
}

/// Value of a run of ASCII decimal digits.
pub open spec fn digits_value(s: Seq<char>) -> int
    decreases s.len(),
{
    if s.len() == 0 {
        0
    } else {
        digits_value(s.drop_last()) * 10 + (s.last() as int - 48)
    }
}

pub open spec fn all_digits(s: Seq<char>) -> bool {
    forall|i: int| 0 <= i < s.len() ==> '0' <= #[trigger] s[i] <= '9'
}

/// `str::parse::<i64>`: an optional `+` or `-`, then one or more ASCII
/// digits, whose value fits in `i64`.
pub open spec fn parse_i64_spec(s: Seq<char>) -> Option<i64> {
    let neg = s.len() > 0 && s[0] == '-';
    let ds = if s.len() > 0 && (s[0] == '-' || s[0] == '+') {
        s.drop_first()
    } else {
        s
    };
    let v = if neg {
        -digits_value(ds)
    } else {
        digits_value(ds)
    };
    if ds.len() == 0 || !all_digits(ds) || v < i64::MIN || v > i64::MAX {
        None
    } else {
        Some(v as i64)
    }
}

/// `str::parse::<i64>`.
#[verifier::external_body]
pub(crate) fn parse_i64(s: &str) -> (r: Option<i64>)
    ensures
        r == parse_i64_spec(s@),
{
    s.parse::<i64>().ok()
}

/// The first `n` characters of `s` (all of it when shorter):
/// `s.chars().take(n)`.
pub open spec fn prefix_upto(s: Seq<char>, n: int) -> Seq<char> {
    if s.len() <= n {
        s
    } else {
        s.take(n)
    }
}

pub fn take_chars(s: &str, n: usize) -> (r: String)
    ensures
        r@ == prefix_upto(s@, n as int),
{
    let cs = chars_of(s);
    if cs.len() <= n {
        return string_from_chars(&cs);
    }
    let mut out: Vec<char> = Vec::new();
    let mut i: usize = 0;
    while i < n
        invariant
            i <= n < cs@.len(),
            out@ == cs@.take(i as int),
        decreases n - i,
    {
        out.push(cs[i]);
        i += 1;
        assert(cs@.take(i as int) == cs@.take(i - 1).push(cs@[i - 1]));
    }
    string_from_chars(&out)
}

/// Index of the first occurrence of `pat` in `hay` at or after `start`.
pub open spec fn first_occ(hay: Seq<char>, pat: Seq<char>, start: int) -> Option<int>
    decreases hay.len() + 1 - start,
{
    if start < 0 || start + pat.len() > hay.len() {
        None
    } else if occurs_at(hay, pat, start) {
        Some(start)
    } else {
        first_occ(hay, pat, start + 1)
    }
}

pub fn find_from(hay: &Vec<char>, pat: &Vec<char>, start: usize) -> (r: Option<usize>)
    ensures
        match r {
            Some(k) => first_occ(hay@, pat@, start as int) == Some(k as int),
            None => first_occ(hay@, pat@, start as int) is None,
        },
    decreases hay@.len() + 1 - start,
{
    if pat.len() > hay.len() || start > hay.len() - pat.len() {
        return None;
    }
    if pat.len() == 0 {
        assert(hay@.subrange(start as int, start as int) == pat@);
    }
    if matches_at(hay, pat, start) {
        Some(start)
    } else {
        find_from(hay, pat, start + 1)
    }
}

/// The leading run of `s` that holds none of the characters in `stop`.
pub open spec fn take_until(s: Seq<char>, stop: Seq<char>) -> Seq<char>
    decreases s.len(),
{
    if s.len() == 0 || stop.contains(s[0]) {
        seq![]
    } else {
        seq![s[0]] + take_until(s.drop_first(), stop)
    }
}

pub fn take_until_any(s: &Vec<char>, start: usize, stop: &Vec<char>) -> (r: Vec<char>)
    requires
        start <= s@.len(),
    ensures
        r@ == take_until(s@.skip(start as int), stop@),
    decreases s@.len() - start,
{
    if start == s.len() {
        assert(s@.skip(start as int).len() == 0);
        return Vec::new();
    }
    let c = s[start];
    let mut hit = false;
    let mut j: usize = 0;
    while j < stop.len()
        invariant
            j <= stop@.len(),
            hit == (exists|t: int| 0 <= t < j && stop@[t] == c),
        decreases stop.len() - j,
    {
        if stop[j] == c {
            hit = true;
        }
        j += 1;
    }
    assert(s@.skip(start as int)[0] == c);
    assert(hit == stop@.contains(c));
    if hit {
        Vec::new()
    } else {
        assert(s@.skip(start as int).drop_first() == s@.skip(start + 1));
        let rest = take_until_any(s, start + 1, stop);
        let mut r: Vec<char> = Vec::new();
        r.push(c);
        let mut k: usize = 0;
        while k < rest.len()
            invariant
                k <= rest@.len(),
                r@ == seq![c] + rest@.take(k as int),
            decreases rest.len() - k,
        {
            r.push(rest[k]);
            k += 1;
            assert(rest@.take(k as int) == rest@.take(k - 1).push(rest@[k - 1]));
        }
        assert(rest@.take(rest@.len() as int) == rest@);
        r
    }
}

/// The part of `s` after its last `c` (all of `s` when there is none):
/// `s.rsplit(c).next()`.
pub open spec fn after_last(s: Seq<char>, c: char) -> Seq<char>
    decreases s.len(),
{
    if s.len() == 0 {
        s
    } else if s.last() == c {
        seq![]
    } else {
        after_last(s.drop_last(), c).push(s.last())
    }
}

pub fn after_last_char(s: &Vec<char>, c: char) -> (r: Vec<char>)
    ensures
        r@ == after_last(s@, c),
{
    let mut k: usize = s.len();
    assert(s@.take(k as int) == s@);
    assert(s@.skip(k as int) == Seq::<char>::empty());
    while k > 0 && s[k - 1] != c
        invariant
            k <= s@.len(),
            after_last(s@, c) == after_last(s@.take(k as int), c) + s@.skip(k as int),
        decreases k,
    {
        assert(s@.take(k as int).drop_last() == s@.take(k - 1));
        assert(s@.take(k as int).last() == s@[k - 1]);
        assert(s@.skip(k - 1) == seq![s@[k - 1]] + s@.skip(k as int));
        k -= 1;
    }
    if k == 0 {
        assert(s@.take(0) == Seq::<char>::empty());
    } else {
        assert(s@.take(k as int).last() == s@[k - 1]);
    }
    assert(after_last(s@, c) == s@.skip(k as int));
    let mut r: Vec<char> = Vec::new();
    let mut i: usize = k;
    while i < s.len()
        invariant
            k <= i <= s@.len(),
            r@ == s@.subrange(k as int, i as int),
        decreases s.len() - i,
    {
        r.push(s[i]);
        i += 1;
        assert(s@.subrange(k as int, i as int) == s@.subrange(k as int, i - 1).push(s@[i - 1]));
    }
    assert(s@.subrange(k as int, s@.len() as int) == s@.skip(k as int));
    r
}

/// The last white-space separated word of `s`, if it has one:
/// `s.split_whitespace().last()`.
pub open spec fn last_word(s: Seq<char>) -> Option<Seq<char>> {
    let t = trim_end_spec(s);
    if t.len() == 0 {
        None
    } else {
        Some(after_last_ws(t))
    }
}

/// The part of `s` after its last white-space character.
pub open spec fn after_last_ws(s: Seq<char>) -> Seq<char>
    decreases s.len(),
{
    if s.len() == 0 {
        s
    } else if is_white_space(s.last()) {
        seq![]
    } else {
        after_last_ws(s.drop_last()).push(s.last())
    }
}

pub fn last_word_of(s: &Vec<char>) -> (r: Option<Vec<char>>)
    ensures
        match r {
            Some(w) => last_word(s@) == Some(w@),
            None => last_word(s@) is None,
        },
{
    // strip trailing white space
    let mut e: usize = s.len();
    assert(s@.take(e as int) == s@);
    while e > 0 && is_whitespace_char(s[e - 1])
        invariant
            e <= s@.len(),
            trim_end_spec(s@) == trim_end_spec(s@.take(e as int)),
        decreases e,
    {
        assert(s@.take(e as int).drop_last() == s@.take(e - 1));
        e -= 1;
    }
    let ghost t = s@.take(e as int);
    assert(e > 0 ==> !is_white_space(t.last()));
    assert(trim_end_spec(t) == t);
    if e == 0 {
        return None;
    }
    let mut k: usize = e;
    assert(t.take(k as int) == t);
    assert(t.skip(k as int) == Seq::<char>::empty());
    while k > 0 && !is_whitespace_char(s[k - 1])
        invariant
            k <= e <= s@.len(),
            t == s@.take(e as int),
            after_last_ws(t) == after_last_ws(t.take(k as int)) + t.skip(k as int),
        decreases k,
    {
        assert(t.take(k as int).drop_last() == t.take(k - 1));
        assert(t.take(k as int).last() == s@[k - 1]);
        assert(t.skip(k - 1) == seq![t[k - 1]] + t.skip(k as int));
        k -= 1;
    }
    if k == 0 {
        assert(t.take(0) == Seq::<char>::empty());
    } else {
        assert(t.take(k as int).last() == s@[k - 1]);
    }
    assert(after_last_ws(t) == t.skip(k as int));
    let mut r: Vec<char> = Vec::new();
    let mut i: usize = k;
    while i < e
        invariant
            k <= i <= e <= s@.len(),
            t == s@.take(e as int),
            r@ == t.subrange(k as int, i as int),
        decreases e - i,
    {
        r.push(s[i]);
        i += 1;
        assert(t.subrange(k as int, i as int) == t.subrange(k as int, i - 1).push(t[i - 1]));
    }
    assert(t.subrange(k as int, e as int) == t.skip(k as int));
    Some(r)
}

/// A copy of `v[a..b]`.
pub fn slice_chars(v: &Vec<char>, a: usize, b: usize) -> (r: Vec<char>)
    requires
        a <= b <= v@.len(),
    ensures
        r@ == v@.subrange(a as int, b as int),
{
    let mut r: Vec<char> = Vec::new();
    let mut i: usize = a;
    while i < b
        invariant
            a <= i <= b <= v@.len(),
            r@ == v@.subrange(a as int, i as int),
        decreases b - i,
    {
        r.push(v[i]);
        i += 1;
        assert(v@.subrange(a as int, i as int) == v@.subrange(a as int, i - 1).push(v@[i - 1]));
    }
    r
}

/// The first `n` characters of `v` (all of it when shorter).
pub fn prefix_chars(v: &Vec<char>, n: usize) -> (r: Vec<char>)
    ensures
        r@ == prefix_upto(v@, n as int),
{
    if v.len() <= n {
        slice_chars(v, 0, v.len())
    } else {
        slice_chars(v, 0, n)
    }
}

/// Decimal digits of a natural number, most significant first.
pub open spec fn decimal(n: nat) -> Seq<char>
    decreases n,
{
    if n < 10 {
        seq![(n + 48) as char]
    } else {
        decimal(n / 10).push(((n % 10) + 48) as char)
    }
}

/// `n.to_string()` for an unsigned integer.
pub fn decimal_string(n: u64) -> (r: Vec<char>)
    ensures
        r@ == decimal(n as nat),
    decreases n,
{
    let d: u8 = (n % 10) as u8 + 48;
    if n < 10 {
        let mut r: Vec<char> = Vec::new();
        r.push(d as char);
        r
    } else {
        let mut r = decimal_string(n / 10);
        r.push(d as char);
        r
    }
}

/// Appends the characters of `s`.
pub fn push_str_chars(out: &mut Vec<char>, s: &str)
    ensures
        final(out)@ == old(out)@ + s@,
{
    let cs = chars_of(s);
    let mut i: usize = 0;
    while i < cs.len()
        invariant
            i <= cs@.len(),
            cs@ == s@,
            out@ == old(out)@ + cs@.take(i as int),
        decreases cs.len() - i,
    {
        out.push(cs[i]);
        i += 1;
        assert(cs@.take(i as int) == cs@.take(i - 1).push(cs@[i - 1]));
    }
    assert(cs@.take(cs@.len() as int) == cs@);
}

/// `a` followed by `b`, as an owned string.
pub fn concat(a: &str, b: &str) -> (r: String)
    ensures
        r@ == a@ + b@,
{
    let mut out: Vec<char> = Vec::new();
    push_str_chars(&mut out, a);
    push_str_chars(&mut out, b);
    string_from_chars(&out)
}

/// A found occurrence lies at or after the start and really occurs there.
pub proof fn lemma_first_occ_found(hay: Seq<char>, pat: Seq<char>, start: int)
    ensures
        first_occ(hay, pat, start) matches Some(k) ==> start <= k && occurs_at(hay, pat, k),
    decreases hay.len() + 1 - start,
{
    if start < 0 || start + pat.len() > hay.len() {
    } else if occurs_at(hay, pat, start) {
    } else {
        lemma_first_occ_found(hay, pat, start + 1);
    }
}

/// The parts joined with `sep` between consecutive ones (`[..].join(sep)`).
pub open spec fn join_spec(parts: Seq<Seq<char>>, sep: Seq<char>) -> Seq<char>
    decreases parts.len(),
{
    if parts.len() == 0 {
        seq![]
    } else if parts.len() == 1 {
        parts[0]
    } else {
        join_spec(parts.drop_last(), sep) + sep + parts.last()
    }
}

pub open spec fn string_views(v: Seq<String>) -> Seq<Seq<char>> {
    v.map_values(|s: String| s@)
}

pub fn join(parts: &Vec<String>, sep: &str) -> (r: String)
    ensures
        r@ == join_spec(string_views(parts@), sep@),
{
    let mut out: Vec<char> = Vec::new();
    let mut i: usize = 0;
    while i < parts.len()
        invariant
            i <= parts@.len(),
            out@ == join_spec(string_views(parts@.take(i as int)), sep@),
        decreases parts.len() - i,
    {
        assert(string_views(parts@.take(i + 1)).drop_last() == string_views(parts@.take(i as int)));
        assert(string_views(parts@.take(i + 1)).last() == parts@[i as int]@);
        if i > 0 {
            push_str_chars(&mut out, sep);
        }
        push_str_chars(&mut out, parts[i].as_str());
        i += 1;
    }
    assert(parts@.take(parts@.len() as int) == parts@);
    string_from_chars(&out)
}

/// Whether `s` occurs in `v`, compared by content.
pub fn contains_string(v: &Vec<String>, s: &String) -> (r: bool)
    ensures
        r == string_views(v@).contains(s@),
{
    let mut i: usize = 0;
    while i < v.len()
        invariant
            i <= v@.len(),
            forall|j: int| 0 <= j < i ==> v@[j]@ != s@,
        decreases v.len() - i,
    {
        if str_eq(v[i].as_str(), s.as_str()) {
            assert(string_views(v@)[i as int] == s@);
            return true;
        }
        i += 1;
    }
    assert(!string_views(v@).contains(s@)) by {
        if string_views(v@).contains(s@) {
            let j = choose|j: int| 0 <= j < string_views(v@).len() && string_views(v@)[j] == s@;
            assert(v@[j]@ == s@);
        }
    }
    false
}

/// What `str::to_lowercase` gives for a text (Unicode lower-casing).
pub uninterp spec fn spec_to_lowercase(s: Seq<char>) -> Seq<char>;

/// `str::to_lowercase`. Unicode case mapping is named, not restated.
#[verifier::external_body]
pub(crate) fn to_lowercase(s: &str) -> (r: String)
    ensures
        r@ == spec_to_lowercase(s@),
{
    s.to_lowercase()
}

/// Whether `needle` occurs in `hay`.
pub fn str_contains(hay: &Vec<char>, needle: &str) -> (r: bool)
    ensures
        r == contains_seq(hay@, needle@),
{
    let n = chars_of(needle);
    contains_chars(hay, &n)
}

} // verus!
