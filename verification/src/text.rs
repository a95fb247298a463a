use vstd::prelude::*;

verus! {

// ----------------------------------------------------------------------------
// Models
// ----------------------------------------------------------------------------

/// `pat` occurs in `s` starting at position `i`.
pub open spec fn occurs_at(s: Seq<char>, pat: Seq<char>, i: int) -> bool {
    &&& 0 <= i
    &&& i + pat.len() <= s.len()
    &&& s.subrange(i, i + pat.len()) == pat
}

/// The first position at or after `i` where `pat` occurs in `s`.
pub open spec fn find_from(s: Seq<char>, pat: Seq<char>, i: int) -> Option<int>
    decreases s.len() + 1 - i,
{
    if i < 0 || i + pat.len() > s.len() {
        None
    } else if occurs_at(s, pat, i) {
        Some(i)
    } else {
        find_from(s, pat, i + 1)
    }
}

/// The first position where `pat` occurs in `s`, as `str::find` reports it.
pub open spec fn find_first(s: Seq<char>, pat: Seq<char>) -> Option<int> {
    find_from(s, pat, 0)
}

/// `s` begins with `pat`.
pub open spec fn starts_with(s: Seq<char>, pat: Seq<char>) -> bool {
    pat.len() <= s.len() && s.take(pat.len() as int) == pat
}

/// Characters with the Unicode `White_Space` property, which is what
/// `char::is_whitespace` tests.
pub open spec fn is_white_space(c: char) -> bool {
    let u = c as u32;
    ||| 0x9 <= u <= 0xd
    ||| u == 0x20
    ||| u == 0x85
    ||| u == 0xa0
    ||| u == 0x1680
    ||| 0x2000 <= u <= 0x200a
    ||| u == 0x2028
    ||| u == 0x2029
    ||| u == 0x202f
    ||| u == 0x205f
    ||| u == 0x3000
}

/// `s` with every white-space character taken out, the rest kept in order.
pub open spec fn strip_white_space(s: Seq<char>) -> Seq<char>
    decreases s.len(),
{
    if s.len() == 0 {
        Seq::empty()
    } else {
        let r = strip_white_space(s.drop_last());
        if is_white_space(s.last()) {
            r
        } else {
            r.push(s.last())
        }
    }
}

pub open spec fn comma() -> Seq<char> {
    seq![',']
}

/// The second of the comma-separated fields of `s` (`s.split(',')` at index 1),
/// if `s` has a comma at all.
pub open spec fn second_field(s: Seq<char>) -> Option<Seq<char>> {
    match find_first(s, comma()) {
        None => None,
        Some(a) => {
            let rest = s.skip(a + 1);
            match find_first(rest, comma()) {
                None => Some(rest),
                Some(b) => Some(rest.take(b)),
            }
        },
    }
}

pub open spec fn is_digit(c: char) -> bool {
    0x30 <= (c as u32) <= 0x39
}

pub open spec fn digit_value(c: char) -> int {
    (c as u32) - 0x30
}

pub open spec fn all_digits(s: Seq<char>) -> bool {
    forall|i: int| 0 <= i < s.len() ==> is_digit(#[trigger] s[i])
}

/// The number written by the decimal digits `s`.
pub open spec fn decimal_value(s: Seq<char>) -> int
    decreases s.len(),
{
    if s.len() == 0 {
        0
    } else {
        decimal_value(s.drop_last()) * 10 + digit_value(s.last())
    }
}

/// `s` without one leading `+`, the only sign an unsigned number may carry.
pub open spec fn unsigned_digits(s: Seq<char>) -> Seq<char> {
    if s.len() > 0 && s[0] == '+' {
        s.skip(1)
    } else {
        s
    }
}

/// What `s.parse::<u64>()` gives: an optional `+`, then one or more decimal
/// digits whose value fits in a `u64`.
pub open spec fn parse_u64_spec(s: Seq<char>) -> Option<u64> {
    let d = unsigned_digits(s);
    if d.len() > 0 && all_digits(d) && decimal_value(d) <= u64::MAX {
        Some(decimal_value(d) as u64)
    } else {
        None
    }
}

// ----------------------------------------------------------------------------
// Lemmas
// ----------------------------------------------------------------------------

proof fn lemma_decimal_nonneg(s: Seq<char>)
    requires
        all_digits(s),
    ensures
        decimal_value(s) >= 0,
    decreases s.len(),
{
    if s.len() > 0 {
        assert(all_digits(s.drop_last())) by {
            assert forall|i: int| 0 <= i < s.drop_last().len() implies is_digit(
                #[trigger] s.drop_last()[i],
            ) by {
                assert(s.drop_last()[i] == s[i]);
            }
        }
        lemma_decimal_nonneg(s.drop_last());
        assert(is_digit(s[s.len() - 1]));
    }
}

/// A number never gets smaller by appending digits.
proof fn lemma_decimal_prefix(s: Seq<char>, k: int)
    requires
        all_digits(s),
        0 <= k <= s.len(),
    ensures
        decimal_value(s) >= decimal_value(s.take(k)),
    decreases s.len(),
{
    if k < s.len() {
        let p = s.drop_last();
        assert(all_digits(p)) by {
            assert forall|i: int| 0 <= i < p.len() implies is_digit(#[trigger] p[i]) by {
                assert(p[i] == s[i]);
            }
        }
        lemma_decimal_prefix(p, k);
        assert(p.take(k) =~= s.take(k));
        lemma_decimal_nonneg(p);
        assert(is_digit(s[s.len() - 1]));
    } else {
        assert(s.take(k) =~= s);
    }
}

/// Taking out white space leaves none, and never lengthens the text.
pub proof fn lemma_strip_white_space(s: Seq<char>)
    ensures
        strip_white_space(s).len() <= s.len(),
        forall|i: int|
            0 <= i < strip_white_space(s).len() ==> !is_white_space(#[trigger] strip_white_space(s)[i]),
    decreases s.len(),
{
    if s.len() > 0 {
        lemma_strip_white_space(s.drop_last());
    }
}

/// Taking out white space keeps every other character, in order and as often
/// as it occurs: the result is `s` filtered to its characters that are not
/// white space.
pub proof fn law_strip_white_space_keeps_the_rest(s: Seq<char>)
    ensures
        strip_white_space(s) == s.filter(|c: char| !is_white_space(c)),
        forall|c: char|
            !is_white_space(c) ==> strip_white_space(s).to_multiset().count(c)
                == s.to_multiset().count(c),
    decreases s.len(),
{
    reveal_with_fuel(Seq::<_>::filter, 1);
    if s.len() > 0 {
        law_strip_white_space_keeps_the_rest(s.drop_last());
    } else {
        assert(s.filter(|c: char| !is_white_space(c)) =~= s);
    }
    lemma_strip_counts(s);
}

proof fn lemma_strip_counts(s: Seq<char>)
    ensures
        forall|c: char|
            !is_white_space(c) ==> strip_white_space(s).to_multiset().count(c)
                == s.to_multiset().count(c),
    decreases s.len(),
{
    broadcast use vstd::seq_lib::group_to_multiset_ensures;

    if s.len() == 0 {
        assert(strip_white_space(s) =~= s);
    } else {
        lemma_strip_counts(s.drop_last());
        assert(s =~= s.drop_last().push(s.last()));
    }
}

/// Printable ASCII characters other than the space are never white space; the
/// ASCII white space is exactly tab, line feed, vertical tab, form feed,
/// carriage return and space.
pub proof fn law_ascii_white_space(c: char)
    ensures
        0x21 <= (c as u32) <= 0x7e ==> !is_white_space(c),
        (c as u32) < 0x80 ==> (is_white_space(c) <==> (c == ' ' || c == '\t' || c == '\n' || c
            == '\u{b}' || c == '\u{c}' || c == '\r')),
{
}

// ----------------------------------------------------------------------------
// Executable text operations
// ----------------------------------------------------------------------------

/// The characters of `s`, in order.
pub fn chars_of(s: &str) -> (res: Vec<char>)
    ensures
        res@ == s@,
{
    broadcast use vstd::string::group_string_axioms;

    let mut out: Vec<char> = Vec::new();
    for c in it: s.chars()
        invariant
            it.seq() == s@,
            out@ == s@.take(it.index()),
    {
        assert(s@.take(it.index() + 1) =~= s@.take(it.index()).push(c));
        out.push(c);
    }
    assert(out@ =~= s@);
    out
}

/// Appends `c` to `s` with `String::push`.
/// Trusted: the characters of the string gain `c` at the end, as the
/// documentation of `String::push` says.
#[verifier::external_body]
fn push_char(s: &mut String, c: char)
    ensures
        final(s)@ == old(s)@.push(c),
{
    s.push(c);
}

/// A `String` made of the characters `v`, in order.
pub fn string_from_chars(v: &Vec<char>) -> (res: String)
    ensures
        res@ == v@,
{
    let mut out = String::new();
    let mut k: usize = 0;
    while k < v.len()
        invariant
            k <= v@.len(),
            out@ == v@.take(k as int),
        decreases v.len() - k,
    {
        assert(v@.take(k + 1) =~= v@.take(k as int).push(v@[k as int]));
        push_char(&mut out, v[k]);
        k += 1;
    }
    assert(v@.take(v@.len() as int) =~= v@);
    out
}

/// Whether `pat` occurs in `s` at position `i`.
pub fn occurs_at_exec(s: &Vec<char>, pat: &Vec<char>, i: usize) -> (res: bool)
    ensures
        res == occurs_at(s@, pat@, i as int),
{
    let n = s.len();
    if i > n || pat.len() > n - i {
        return false;
    }
    let mut j: usize = 0;
    while j < pat.len()
        invariant
            i + pat@.len() <= s@.len(),
            n == s@.len(),
            j <= pat@.len(),
            forall|k: int| 0 <= k < j ==> s@[i + k] == pat@[k],
        decreases pat.len() - j,
    {
        assert(i + j < s@.len());
        if s[i + j] != pat[j] {
            assert(s@.subrange(i as int, i + pat@.len())[j as int] != pat@[j as int]);
            return false;
        }
        j += 1;
    }
    assert(s@.subrange(i as int, i + pat@.len()) =~= pat@);
    true
}

/// The first position where `pat` occurs in `s`, like `str::find`.
pub fn find_pattern(s: &Vec<char>, pat: &Vec<char>) -> (res: Option<usize>)
    ensures
        match res {
            Some(k) => find_first(s@, pat@) == Some(k as int),
            None => find_first(s@, pat@) is None,
        },
{
    if pat.len() > s.len() {
        return None;
    }
    if pat.len() == 0 {
        assert(s@.subrange(0, 0) =~= pat@);
        return Some(0);
    }
    let n = s.len();
    let last = n - pat.len();
    let mut i: usize = 0;
    while i <= last
        invariant
            n == s@.len(),
            last == s@.len() - pat@.len(),
            pat@.len() > 0,
            i <= last + 1,
            find_from(s@, pat@, 0) == find_from(s@, pat@, i as int),
        decreases last + 1 - i,
    {
        if occurs_at_exec(s, pat, i) {
            return Some(i);
        }
        i += 1;
    }
    None
}

/// Whether `s` begins with `pat`.
pub fn starts_with_exec(s: &Vec<char>, pat: &Vec<char>) -> (res: bool)
    ensures
        res == starts_with(s@, pat@),
{
    let r = occurs_at_exec(s, pat, 0);
    proof {
        if pat@.len() <= s@.len() {
            assert(s@.subrange(0, pat@.len() as int) =~= s@.take(pat@.len() as int));
        }
    }
    r
}

/// Whether `c` is white space in the sense of `char::is_whitespace`.
pub fn is_white_space_exec(c: char) -> (res: bool)
    ensures
        res == is_white_space(c),
{
    let u = c as u32;
    (0x9 <= u && u <= 0xd) || u == 0x20 || u == 0x85 || u == 0xa0 || u == 0x1680 || (0x2000 <= u
        && u <= 0x200a) || u == 0x2028 || u == 0x2029 || u == 0x202f || u == 0x205f || u == 0x3000
}

/// The characters of `s` from position `from` on, white space taken out.
pub fn strip_white_space_from(s: &Vec<char>, from: usize) -> (res: Vec<char>)
    requires
        from <= s@.len(),
    ensures
        res@ == strip_white_space(s@.skip(from as int)),
        res@ == s@.skip(from as int).filter(|c: char| !is_white_space(c)),
{
    let mut out: Vec<char> = Vec::new();
    let mut k: usize = from;
    assert(s@.subrange(from as int, from as int) =~= Seq::<char>::empty());
    while k < s.len()
        invariant
            from <= k <= s@.len(),
            out@ == strip_white_space(s@.subrange(from as int, k as int)),
        decreases s.len() - k,
    {
        let c = s[k];
        assert(s@.subrange(from as int, k + 1).drop_last() =~= s@.subrange(from as int, k as int));
        if !is_white_space_exec(c) {
            out.push(c);
        }
        k += 1;
    }
    assert(s@.subrange(from as int, s@.len() as int) =~= s@.skip(from as int));
    proof {
        law_strip_white_space_keeps_the_rest(s@.skip(from as int));
    }
    out
}

/// The characters `s[a..b]`.
pub fn copy_range(s: &Vec<char>, a: usize, b: usize) -> (res: Vec<char>)
    requires
        a <= b <= s@.len(),
    ensures
        res@ == s@.subrange(a as int, b as int),
{
    let mut out: Vec<char> = Vec::new();
    let mut k: usize = a;
    while k < b
        invariant
            a <= k <= b,
            b <= s@.len(),
            out@ == s@.subrange(a as int, k as int),
        decreases b - k,
    {
        out.push(s[k]);
        assert(s@.subrange(a as int, k + 1) =~= s@.subrange(a as int, k as int).push(s@[k as int]));
        k += 1;
    }
    out
}

/// The second comma-separated field of `s`, like `s.split(',').nth(1)`.
pub fn second_field_exec(s: &Vec<char>) -> (res: Option<Vec<char>>)
    ensures
        match res {
            Some(f) => second_field(s@) == Some(f@),
            None => second_field(s@) is None,
        },
{
    let sep: Vec<char> = vec![','];
    assert(sep@ =~= comma());
    assert(comma().len() == 1);
    match find_pattern(s, &sep) {
        None => None,
        Some(a) => {
            proof {
                assert(occurs_at(s@, comma(), a as int)) by {
                    lemma_find_from_occurs(s@, comma(), 0);
                }
            }
            let n = s.len();
            assert(a < n);
            let rest = copy_range(s, a + 1, n);
            assert(rest@ =~= s@.skip(a + 1));
            match find_pattern(&rest, &sep) {
                None => Some(rest),
                Some(b) => {
                    proof {
                        lemma_find_from_occurs(rest@, comma(), 0);
                    }
                    let f = copy_range(&rest, 0, b);
                    assert(f@ =~= rest@.take(b as int));
                    Some(f)
                },
            }
        },
    }
}

/// A position that `find_from` reports is an occurrence.
pub proof fn lemma_find_from_occurs(s: Seq<char>, pat: Seq<char>, i: int)
    ensures
        find_from(s, pat, i) matches Some(k) ==> occurs_at(s, pat, k) && i <= k,
    decreases s.len() + 1 - i,
{
    if !(i < 0 || i + pat.len() > s.len()) && !occurs_at(s, pat, i) {
        lemma_find_from_occurs(s, pat, i + 1);
    }
}

/// With no occurrence of `pat` in `s` from `j` up to `i`, and one at `i`,
/// the search from `j` finds `i`.
pub proof fn lemma_find_from_first(s: Seq<char>, pat: Seq<char>, j: int, i: int)
    requires
        0 <= j <= i,
        occurs_at(s, pat, i),
        forall|k: int| j <= k < i ==> !occurs_at(s, pat, k),
    ensures
        find_from(s, pat, j) == Some(i),
    decreases i - j,
{
    if j < i {
        lemma_find_from_first(s, pat, j + 1, i);
    }
}

/// With no occurrence of `pat` in `s` at or after `j`, the search from `j` finds nothing.
pub proof fn lemma_find_from_none(s: Seq<char>, pat: Seq<char>, j: int)
    requires
        0 <= j,
        forall|k: int| j <= k ==> !occurs_at(s, pat, k),
    ensures
        find_from(s, pat, j) is None,
    decreases s.len() + 1 - j,
{
    if !(j + pat.len() > s.len()) {
        lemma_find_from_none(s, pat, j + 1);
    }
}

/// With an occurrence of `pat` in `s` at `k >= j`, the search from `j` finds one.
pub proof fn lemma_find_from_some(s: Seq<char>, pat: Seq<char>, j: int, k: int)
    requires
        0 <= j <= k,
        occurs_at(s, pat, k),
    ensures
        find_from(s, pat, j) is Some,
    decreases k - j,
{
    if j < k && !occurs_at(s, pat, j) {
        lemma_find_from_some(s, pat, j + 1, k);
    }
}

/// The second field runs from just after the first comma up to the next comma,
/// or to the end when there is none.
pub proof fn law_second_field(s: Seq<char>, a: int, b: int)
    requires
        0 <= a < b <= s.len(),
        s[a] == ',',
        forall|j: int| 0 <= j < a ==> s[j] != ',',
        forall|j: int| a < j < b ==> s[j] != ',',
        b == s.len() || s[b] == ',',
    ensures
        second_field(s) == Some(s.subrange(a + 1, b)),
{
    assert(comma() =~= seq![',']);
    assert(s.subrange(a, a + 1) =~= comma());
    assert forall|j: int| 0 <= j < a implies !occurs_at(s, comma(), j) by {
        if occurs_at(s, comma(), j) {
            assert(s.subrange(j, j + 1)[0] == s[j]);
        }
    }
    lemma_find_from_first(s, comma(), 0, a);
    let rest = s.skip(a + 1);
    if b == s.len() {
        assert forall|j: int| 0 <= j implies !occurs_at(rest, comma(), j) by {
            if occurs_at(rest, comma(), j) {
                assert(rest.subrange(j, j + 1)[0] == s[a + 1 + j]);
            }
        }
        lemma_find_from_none(rest, comma(), 0);
        assert(rest =~= s.subrange(a + 1, b));
    } else {
        let e = b - (a + 1);
        assert(rest.subrange(e, e + 1) =~= comma());
        assert forall|j: int| 0 <= j < e implies !occurs_at(rest, comma(), j) by {
            if occurs_at(rest, comma(), j) {
                assert(rest.subrange(j, j + 1)[0] == s[a + 1 + j]);
            }
        }
        lemma_find_from_first(rest, comma(), 0, e);
        assert(rest.take(e) =~= s.subrange(a + 1, b));
    }
}

/// A text without a comma has no second field.
pub proof fn law_no_comma_no_second_field(s: Seq<char>)
    requires
        forall|j: int| 0 <= j < s.len() ==> s[j] != ',',
    ensures
        second_field(s) is None,
{
    assert(comma() =~= seq![',']);
    assert forall|j: int| 0 <= j implies !occurs_at(s, comma(), j) by {
        if occurs_at(s, comma(), j) {
            assert(s.subrange(j, j + 1)[0] == s[j]);
        }
    }
    lemma_find_from_none(s, comma(), 0);
}

/// Reading a number: a single decimal digit is its value; appending a digit to
/// a number multiplies it by ten and adds the digit, and is refused once the
/// result passes `u64::MAX`; one leading `+` changes nothing; a text that is
/// empty, is a bare `+`, or holds any other character is refused.
pub proof fn law_parse_u64(d: Seq<char>, c: char)
    ensures
        '0' <= c <= '9' ==> parse_u64_spec(seq![c]) == Some(((c as u32) - ('0' as u32)) as u64),
        ('0' <= c <= '9' && d.len() > 0 && forall|j: int| 0 <= j < d.len() ==> '0' <= #[trigger] d[j] <= '9')
            ==> parse_u64_spec(d.push(c)) == match parse_u64_spec(d) {
            Some(x) => if 10 * x + ((c as u32) - ('0' as u32)) <= u64::MAX {
                Some((10 * x + ((c as u32) - ('0' as u32))) as u64)
            } else {
                None
            },
            None => None,
        },
        (d.len() > 0 && d[0] != '+') ==> parse_u64_spec(seq!['+'] + d) == parse_u64_spec(d),
        parse_u64_spec(Seq::empty()) is None,
        parse_u64_spec(seq!['+']) is None,
        (exists|j: int| 0 <= j < d.len() && !is_digit(#[trigger] d[j]) && !(j == 0 && d[j] == '+'))
            ==> parse_u64_spec(d) is None,
{
    assert(seq![c].drop_last() =~= Seq::<char>::empty());
    assert(unsigned_digits(seq!['+']) =~= Seq::<char>::empty());
    if d.len() > 0 && d[0] != '+' {
        assert(unsigned_digits(seq!['+'] + d) =~= d);
    }
    if '0' <= c <= '9' && d.len() > 0 && forall|j: int| 0 <= j < d.len() ==> '0' <= #[trigger] d[j] <= '9' {
        let e = d.push(c);
        assert(e.drop_last() =~= d);
        assert(unsigned_digits(d) == d);
        assert(unsigned_digits(e) == e);
        assert(all_digits(d));
        assert(all_digits(e));
        lemma_decimal_nonneg(d);
    }
    if exists|j: int| 0 <= j < d.len() && !is_digit(#[trigger] d[j]) && !(j == 0 && d[j] == '+') {
        let j = choose|j: int| 0 <= j < d.len() && !is_digit(#[trigger] d[j]) && !(j == 0 && d[j] == '+');
        let u = unsigned_digits(d);
        if d[0] == '+' {
            assert(j >= 1);
            assert(u[j - 1] == d[j]);
            assert(!is_digit(u[j - 1]));
        } else {
            assert(u[j] == d[j]);
            assert(!is_digit(u[j]));
        }
        assert(!all_digits(u));
    }
}

/// Parses `s` as `str::parse::<u64>` does: an optional `+`, then decimal digits
/// whose value fits in a `u64`; anything else is refused.
pub fn parse_u64_exec(s: &Vec<char>) -> (res: Option<u64>)
    ensures
        res == parse_u64_spec(s@),
{
    let start: usize = if s.len() > 0 && s[0] == '+' {
        1
    } else {
        0
    };
    let ghost d = unsigned_digits(s@);
    assert(d =~= s@.skip(start as int));
    if start == s.len() {
        return None;
    }
    let mut v: u64 = 0;
    let mut k: usize = start;
    assert(d.take(0) =~= Seq::<char>::empty());
    while k < s.len()
        invariant
            start <= k <= s@.len(),
            d =~= s@.skip(start as int),
            d == unsigned_digits(s@),
            forall|i: int| 0 <= i < k - start ==> is_digit(#[trigger] d[i]),
            v == decimal_value(d.take(k - start)),
        decreases s.len() - k,
    {
        let c = s[k];
        let u = c as u32;
        if !(0x30 <= u && u <= 0x39) {
            assert(d[k - start] == c);
            assert(!all_digits(d));
            return None;
        }
        let digit = (u - 0x30) as u64;
        let ghost t = d.take(k - start + 1);
        assert(t.drop_last() =~= d.take(k - start));
        assert(t.last() == c);
        assert(decimal_value(t) == v * 10 + digit);
        match v.checked_mul(10) {
            None => {
                proof {
                    lemma_overflow_refused(d, k - start + 1, t);
                }
                return None;
            },
            Some(v10) => match v10.checked_add(digit) {
                None => {
                    proof {
                        lemma_overflow_refused(d, k - start + 1, t);
                    }
                    return None;
                },
                Some(nv) => {
                    v = nv;
                },
            },
        }
        k += 1;
    }
    assert(d.take(d.len() as int) =~= d);
    assert(all_digits(d));
    Some(v)
}

/// Once a prefix of the digits is too large for a `u64`, so is the whole.
proof fn lemma_overflow_refused(d: Seq<char>, k: int, t: Seq<char>)
    requires
        0 <= k <= d.len(),
        t == d.take(k),
        decimal_value(t) > u64::MAX,
    ensures
        digits_refused(d),
{
    if all_digits(d) {
        lemma_decimal_prefix(d, k);
    }
}

/// The digits `d` do not spell a `u64`.
spec fn digits_refused(d: Seq<char>) -> bool {
    !(d.len() > 0 && all_digits(d) && decimal_value(d) <= u64::MAX)
}

} // verus!
