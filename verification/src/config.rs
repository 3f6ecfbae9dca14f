//! The configuration parser: turns a line-oriented `key: value` text
//! into the suspend-enabled flag and the two timing thresholds.

use vstd::prelude::*;

verus! {

/// Why a configuration line was rejected.
#[derive(Clone, Copy, Debug, PartialEq, Eq, Structural)]
pub enum ConfigError {
    /// The line holds no colon, so it has no value part.
    MissingColon,
    /// The value after the last colon is not a boolean literal.
    InvalidBool,
    /// A time field is not a non-negative integer that fits in 64 bits.
    InvalidNumber,
    /// The weighted sum of the time fields does not fit in 64 bits.
    Overflow,
}

/// The settings read from an xscreensaver-style configuration text.
#[derive(Clone, Copy, Debug, PartialEq, Eq, Structural)]
pub struct XscreensaverSettings {
    /// Whether display power management (and so suspension) is enabled.
    pub dpms_enabled: bool,
    /// How long a lock session may idle before suspension, in seconds.
    pub dpms_off: u64,
    /// The raw password-prompt timeout, in seconds; the state machine
    /// applies its threefold policy multiplier on top of this.
    pub password_timeout: u64,
}

/// The whitespace characters stripped from the ends of a value.
pub open spec fn is_cfg_space(c: char) -> bool {
    c == ' ' || c == '\t' || c == '\n' || c == '\r' || c == '\u{b}' || c == '\u{c}'
}

/// The text with its leading whitespace dropped.
pub open spec fn trim_start_rec(s: Seq<char>) -> Seq<char>
    decreases s.len(),
{
    if s.len() > 0 && is_cfg_space(s[0]) {
        trim_start_rec(s.drop_first())
    } else {
        s
    }
}

/// The text with its trailing whitespace dropped.
pub open spec fn trim_end_rec(s: Seq<char>) -> Seq<char>
    decreases s.len(),
{
    if s.len() > 0 && is_cfg_space(s[s.len() - 1]) {
        trim_end_rec(s.drop_last())
    } else {
        s
    }
}

/// The text with whitespace dropped from both ends.
pub open spec fn spec_trim(s: Seq<char>) -> Seq<char> {
    trim_end_rec(trim_start_rec(s))
}

/// A decimal digit.
pub open spec fn is_digit_char(c: char) -> bool {
    '0' <= c && c <= '9'
}

pub open spec fn digit_val(c: char) -> int {
    c as int - '0' as int
}

pub open spec fn all_digits(s: Seq<char>) -> bool {
    forall|i: int| 0 <= i < s.len() ==> is_digit_char(s[i])
}

/// The number the digit string denotes, most significant digit first.
pub open spec fn digits_value(s: Seq<char>) -> int
    decreases s.len(),
{
    if s.len() == 0 {
        0
    } else {
        digits_value(s.drop_last()) * 10 + digit_val(s.last())
    }
}

/// The digits of a number text, an optional leading plus sign stripped.
pub open spec fn num_body(s: Seq<char>) -> Seq<char> {
    if s.len() > 0 && s[0] == '+' {
        s.drop_first()
    } else {
        s
    }
}

/// Whether the (already trimmed) text denotes a number that fits in a
/// `u64`: an optional plus sign, then one or more digits.
pub open spec fn is_u64_text(s: Seq<char>) -> bool {
    num_body(s).len() > 0 && all_digits(num_body(s)) && digits_value(num_body(s)) <= u64::MAX
}

pub open spec fn u64_text_value(s: Seq<char>) -> int {
    digits_value(num_body(s))
}

/// Collects the characters of a string slice into a vector.
pub(crate) fn str_to_chars(s: &str) -> (r: Vec<char>)
    ensures
        r@ == s@,
{
    let n = s.unicode_len();
    let mut r: Vec<char> = Vec::new();
    let mut i: usize = 0;
    while i < n
        invariant
            n == s@.len(),
            i <= n,
            r@ == s@.take(i as int),
        decreases n - i,
    {
        r.push(s.get_char(i));
        i = i + 1;
        proof {
            assert(r@ =~= s@.take(i as int));
        }
    }
    proof {
        assert(s@.take(n as int) =~= s@);
    }
    r
}

proof fn lemma_trim_start_prefix(s: Seq<char>, k: int)
    requires
        0 <= k <= s.len(),
        forall|i: int| 0 <= i < k ==> is_cfg_space(s[i]),
        k == s.len() || !is_cfg_space(s[k]),
    ensures
        trim_start_rec(s) == s.subrange(k, s.len() as int),
    decreases k,
{
    if k == 0 {
        assert(s.subrange(0, s.len() as int) =~= s);
    } else {
        lemma_trim_start_prefix(s.drop_first(), k - 1);
        assert(s.drop_first().subrange(k - 1, s.len() - 1) =~= s.subrange(k, s.len() as int));
    }
}

proof fn lemma_trim_end_suffix(s: Seq<char>, m: int)
    requires
        0 <= m <= s.len(),
        forall|i: int| m <= i < s.len() ==> is_cfg_space(s[i]),
        m == 0 || !is_cfg_space(s[m - 1]),
    ensures
        trim_end_rec(s) == s.take(m),
    decreases s.len() - m,
{
    if m == s.len() {
        assert(s.take(m) =~= s);
    } else {
        lemma_trim_end_suffix(s.drop_last(), m);
        assert(s.drop_last().take(m) =~= s.take(m));
    }
}

fn is_space_char(c: char) -> (r: bool)
    ensures
        r == is_cfg_space(c),
{
    c == ' ' || c == '\t' || c == '\n' || c == '\r' || c == '\u{b}' || c == '\u{c}'
}

/// Copies the characters of `v` in the index range `[lo, hi)`.
fn copy_range(v: &Vec<char>, lo: usize, hi: usize) -> (r: Vec<char>)
    requires
        lo <= hi <= v.len(),
    ensures
        r@ == v@.subrange(lo as int, hi as int),
{
    let mut r: Vec<char> = Vec::new();
    let mut i: usize = lo;
    while i < hi
        invariant
            lo <= i <= hi <= v.len(),
            r@ == v@.subrange(lo as int, i as int),
        decreases hi - i,
    {
        r.push(v[i]);
        i = i + 1;
        proof {
            assert(r@ =~= v@.subrange(lo as int, i as int));
        }
    }
    r
}

/// Drops whitespace from both ends of the character vector.
fn trim_chars(v: &Vec<char>) -> (r: Vec<char>)
    ensures
        r@ == spec_trim(v@),
{
    let n = v.len();
    let mut lo: usize = 0;
    while lo < n && is_space_char(v[lo])
        invariant
            lo <= n,
            n == v@.len(),
            forall|i: int| 0 <= i < lo ==> is_cfg_space(v@[i]),
        decreases n - lo,
    {
        lo = lo + 1;
    }
    let mut hi: usize = n;
    while hi > lo && is_space_char(v[hi - 1])
        invariant
            lo <= hi <= n,
            n == v@.len(),
            forall|i: int| hi <= i < n ==> is_cfg_space(v@[i]),
        decreases hi,
    {
        hi = hi - 1;
    }
    let r = copy_range(v, lo, hi);
    proof {
        lemma_trim_start_prefix(v@, lo as int);
        let t = v@.subrange(lo as int, n as int);
        assert(forall|i: int| hi - lo <= i < t.len() ==> is_cfg_space(t[i]));
        lemma_trim_end_suffix(t, hi - lo);
        assert(t.take(hi - lo) =~= v@.subrange(lo as int, hi as int));
    }
    r
}

proof fn lemma_digits_value_nonneg(s: Seq<char>)
    requires
        all_digits(s),
    ensures
        digits_value(s) >= 0,
    decreases s.len(),
{
    if s.len() > 0 {
        assert(all_digits(s.drop_last()));
        lemma_digits_value_nonneg(s.drop_last());
    }
}

proof fn lemma_digits_prefix_le(s: Seq<char>, i: int)
    requires
        all_digits(s),
        0 <= i <= s.len(),
    ensures
        digits_value(s.take(i)) <= digits_value(s),
    decreases s.len() - i,
{
    if i == s.len() {
        assert(s.take(i) =~= s);
    } else {
        lemma_digits_prefix_le(s, i + 1);
        let p = s.take(i + 1);
        assert(p.drop_last() =~= s.take(i));
        assert(all_digits(s.take(i)));
        lemma_digits_value_nonneg(s.take(i));
        assert(digits_value(p) == digits_value(s.take(i)) * 10 + digit_val(s[i]));
    }
}

/// Parses a whole (already trimmed) character vector as a `u64`:
/// an optional plus sign, then decimal digits, rejecting overflow.
fn parse_u64_chars(v: &Vec<char>) -> (r: Option<u64>)
    ensures
        match r {
            Some(x) => is_u64_text(v@) && x as int == u64_text_value(v@),
            None => !is_u64_text(v@),
        },
{
    let n = v.len();
    let start: usize = if n > 0 && v[0] == '+' {
        1
    } else {
        0
    };
    let ghost body = num_body(v@);
    proof {
        assert(body =~= v@.subrange(start as int, n as int));
    }
    if start == n {
        return None;
    }
    let mut acc: u64 = 0;
    let mut i: usize = start;
    while i < n
        invariant
            start <= i <= n,
            n == v@.len(),
            body == v@.subrange(start as int, n as int),
            body == num_body(v@),
            all_digits(body.take(i - start)),
            acc as int == digits_value(body.take(i - start)),
        decreases n - i,
    {
        let c = v[i];
        if !(c >= '0' && c <= '9') {
            proof {
                assert(body[i - start] == c);
                assert(!is_digit_char(c));
            }
            return None;
        }
        let d: u64 = (c as u32 - 48) as u64;
        proof {
            assert(d as int == digit_val(c));
            assert(body.take(i + 1 - start).drop_last() =~= body.take(i - start));
            assert(digits_value(body.take(i + 1 - start)) == acc as int * 10 + d as int);
        }
        if acc > (u64::MAX - d) / 10 {
            proof {
                assert(acc as int * 10 + d as int > u64::MAX as int) by (nonlinear_arith)
                    requires
                        acc as int > (u64::MAX as int - d as int) / 10,
                        0 <= d as int <= 9,
                {
                }
                assert(all_digits(body.take(i + 1 - start)));
                if all_digits(body) {
                    lemma_digits_prefix_le(body, i + 1 - start);
                }
            }
            return None;
        }
        proof {
            assert(acc as int * 10 + d as int <= u64::MAX as int) by (nonlinear_arith)
                requires
                    acc as int <= (u64::MAX as int - d as int) / 10,
                    0 <= d as int <= 9,
                    acc as int >= 0,
            {
            }
        }
        acc = acc * 10 + d;
        i = i + 1;
    }
    proof {
        assert(body.take(n - start) =~= body);
    }
    Some(acc)
}

/// The text after the first colon, or nothing if there is no colon.
pub open spec fn after_first_colon(s: Seq<char>) -> Option<Seq<char>>
    decreases s.len(),
{
    if s.len() == 0 {
        None
    } else if s[0] == ':' {
        Some(s.drop_first())
    } else {
        after_first_colon(s.drop_first())
    }
}

/// The text after the last colon, or nothing if there is no colon.
pub open spec fn after_last_colon(s: Seq<char>) -> Option<Seq<char>>
    decreases s.len(),
{
    if s.len() == 0 {
        None
    } else if s[s.len() - 1] == ':' {
        Some(Seq::empty())
    } else {
        match after_last_colon(s.drop_last()) {
            Some(t) => Some(t.push(s[s.len() - 1])),
            None => None,
        }
    }
}

proof fn lemma_after_first_colon_at(s: Seq<char>, k: int)
    requires
        0 <= k < s.len(),
        s[k] == ':',
        forall|i: int| 0 <= i < k ==> s[i] != ':',
    ensures
        after_first_colon(s) == Some(s.subrange(k + 1, s.len() as int)),
    decreases k,
{
    if k == 0 {
        assert(s.drop_first() =~= s.subrange(1, s.len() as int));
    } else {
        lemma_after_first_colon_at(s.drop_first(), k - 1);
        assert(s.drop_first().subrange(k, s.len() - 1) =~= s.subrange(k + 1, s.len() as int));
    }
}

proof fn lemma_after_first_colon_none(s: Seq<char>)
    requires
        forall|i: int| 0 <= i < s.len() ==> s[i] != ':',
    ensures
        after_first_colon(s) is None,
    decreases s.len(),
{
    if s.len() > 0 {
        lemma_after_first_colon_none(s.drop_first());
    }
}

proof fn lemma_after_last_colon_at(s: Seq<char>, k: int)
    requires
        0 <= k < s.len(),
        s[k] == ':',
        forall|i: int| k < i < s.len() ==> s[i] != ':',
    ensures
        after_last_colon(s) == Some(s.subrange(k + 1, s.len() as int)),
    decreases s.len(),
{
    if k == s.len() - 1 {
        assert(s.subrange(k + 1, s.len() as int) =~= Seq::<char>::empty());
    } else {
        lemma_after_last_colon_at(s.drop_last(), k);
        assert(s.drop_last().subrange(k + 1, s.len() - 1).push(s[s.len() - 1]) =~= s.subrange(
            k + 1,
            s.len() as int,
        ));
    }
}

proof fn lemma_after_last_colon_none(s: Seq<char>)
    requires
        forall|i: int| 0 <= i < s.len() ==> s[i] != ':',
    ensures
        after_last_colon(s) is None,
    decreases s.len(),
{
    if s.len() > 0 {
        lemma_after_last_colon_none(s.drop_last());
    }
}

/// The index of the first colon, if any.
fn find_first_colon(v: &Vec<char>) -> (r: Option<usize>)
    ensures
        match r {
            Some(k) => k < v@.len() && v@[k as int] == ':' && (forall|i: int|
                0 <= i < k ==> v@[i] != ':'),
            None => forall|i: int| 0 <= i < v@.len() ==> v@[i] != ':',
        },
{
    let n = v.len();
    let mut i: usize = 0;
    while i < n
        invariant
            i <= n,
            n == v@.len(),
            forall|j: int| 0 <= j < i ==> v@[j] != ':',
        decreases n - i,
    {
        if v[i] == ':' {
            return Some(i);
        }
        i = i + 1;
    }
    None
}

/// The index of the last colon, if any.
fn find_last_colon(v: &Vec<char>) -> (r: Option<usize>)
    ensures
        match r {
            Some(k) => k < v@.len() && v@[k as int] == ':' && (forall|i: int|
                k < i < v@.len() ==> v@[i] != ':'),
            None => forall|i: int| 0 <= i < v@.len() ==> v@[i] != ':',
        },
{
    let n = v.len();
    let mut i: usize = n;
    while i > 0
        invariant
            i <= n,
            n == v@.len(),
            forall|j: int| i <= j < n ==> v@[j] != ':',
        decreases i,
    {
        if v[i - 1] == ':' {
            return Some(i - 1);
        }
        i = i - 1;
    }
    None
}

/// Case-insensitive equality on ASCII letters, plain equality elsewhere.
pub open spec fn char_eq_ci(a: char, b: char) -> bool {
    a == b || ('A' <= a && a <= 'Z' && a as int + 32 == b as int) || ('A' <= b && b <= 'Z' && b
        as int + 32 == a as int)
}

/// Character-wise case-insensitive equality of two texts.
pub open spec fn matches_ci(s: Seq<char>, pat: Seq<char>) -> bool {
    s.len() == pat.len() && forall|i: int| 0 <= i < s.len() ==> char_eq_ci(s[i], pat[i])
}

fn chars_eq_ci(a: char, b: char) -> (r: bool)
    ensures
        r == char_eq_ci(a, b),
{
    if a == b {
        true
    } else {
        let ai = a as u32;
        let bi = b as u32;
        (65 <= ai && ai <= 90 && ai + 32 == bi) || (65 <= bi && bi <= 90 && bi + 32 == ai)
    }
}

pub open spec fn true_chars() -> Seq<char> {
    seq!['t', 'r', 'u', 'e']
}

pub open spec fn false_chars() -> Seq<char> {
    seq!['f', 'a', 'l', 's', 'e']
}

/// What `parse_bool` returns: the text after the last colon, trimmed
/// and compared to the boolean literals ignoring ASCII case.
pub open spec fn spec_parse_bool(line: Seq<char>) -> Result<bool, ConfigError> {
    match after_last_colon(line) {
        None => Err(ConfigError::MissingColon),
        Some(tail) => {
            let t = spec_trim(tail);
            if matches_ci(t, true_chars()) {
                Ok(true)
            } else if matches_ci(t, false_chars()) {
                Ok(false)
            } else {
                Err(ConfigError::InvalidBool)
            }
        },
    }
}

impl XscreensaverSettings {
    /// Parses a boolean setting line: the value after the last colon,
    /// whitespace-trimmed and lower-cased, must read `true` or `false`.
    pub fn parse_bool(line: &str) -> (r: Result<bool, ConfigError>)
        ensures
            r == spec_parse_bool(line@),
    {
        let v = str_to_chars(line);
        parse_bool_chars(&v)
    }
}

fn parse_bool_chars(v: &Vec<char>) -> (r: Result<bool, ConfigError>)
    ensures
        r == spec_parse_bool(v@),
{
    {
        let n = v.len();
        match find_last_colon(v) {
            None => {
                proof {
                    lemma_after_last_colon_none(v@);
                }
                Err(ConfigError::MissingColon)
            },
            Some(k) => {
                proof {
                    lemma_after_last_colon_at(v@, k as int);
                }
                let tail = copy_range(v, k + 1, n);
                let t = trim_chars(&tail);
                let is_true = t.len() == 4 && chars_eq_ci(t[0], 't') && chars_eq_ci(t[1], 'r')
                    && chars_eq_ci(t[2], 'u') && chars_eq_ci(t[3], 'e');
                proof {
                    assert(is_true == matches_ci(t@, true_chars()));
                }
                if is_true {
                    return Ok(true);
                }
                let is_false = t.len() == 5 && chars_eq_ci(t[0], 'f') && chars_eq_ci(t[1], 'a')
                    && chars_eq_ci(t[2], 'l') && chars_eq_ci(t[3], 's') && chars_eq_ci(t[4], 'e');
                proof {
                    assert(is_false == matches_ci(t@, false_chars()));
                }
                if is_false {
                    Ok(false)
                } else {
                    Err(ConfigError::InvalidBool)
                }
            },
        }
    }
}

/// The fields of the text split on colons, rightmost field first.
pub open spec fn rsplit_colon(s: Seq<char>) -> Seq<Seq<char>>
    decreases s.len(),
{
    if s.len() == 0 {
        seq![Seq::<char>::empty()]
    } else if s[s.len() - 1] == ':' {
        seq![Seq::<char>::empty()] + rsplit_colon(s.drop_last())
    } else {
        let r = rsplit_colon(s.drop_last());
        seq![r[0].push(s[s.len() - 1])] + r.drop_first()
    }
}

proof fn lemma_rsplit_len(s: Seq<char>)
    ensures
        rsplit_colon(s).len() >= 1,
    decreases s.len(),
{
    if s.len() > 0 {
        lemma_rsplit_len(s.drop_last());
    }
}

proof fn lemma_rsplit_no_colon(f: Seq<char>)
    requires
        forall|i: int| 0 <= i < f.len() ==> f[i] != ':',
    ensures
        rsplit_colon(f) == seq![f],
    decreases f.len(),
{
    if f.len() == 0 {
        assert(rsplit_colon(f) =~~= seq![f]);
    } else {
        lemma_rsplit_no_colon(f.drop_last());
        assert(f.drop_last().push(f[f.len() - 1]) =~= f);
        assert(rsplit_colon(f) =~~= seq![f]);
    }
}

proof fn lemma_rsplit_last_field(p: Seq<char>, f: Seq<char>)
    requires
        forall|i: int| 0 <= i < f.len() ==> f[i] != ':',
    ensures
        rsplit_colon(p + seq![':'] + f) == seq![f] + rsplit_colon(p),
    decreases f.len(),
{
    let s = p + seq![':'] + f;
    if f.len() == 0 {
        assert(s.len() >= 1 && s[s.len() - 1] == ':');
        assert(s.drop_last() =~= p);
        assert(rsplit_colon(s) =~~= seq![f] + rsplit_colon(p));
    } else {
        let c = f[f.len() - 1];
        assert(s[s.len() - 1] == c && c != ':');
        assert(s.drop_last() =~= p + seq![':'] + f.drop_last());
        lemma_rsplit_last_field(p, f.drop_last());
        let r = rsplit_colon(s.drop_last());
        assert(r == seq![f.drop_last()] + rsplit_colon(p));
        assert(r[0] == f.drop_last());
        assert(r[0].push(c) =~= f);
        assert(r.drop_first() =~= rsplit_colon(p));
        assert(rsplit_colon(s) =~~= seq![f] + rsplit_colon(p));
    }
}

/// The views of a vector of character vectors.
pub open spec fn fields_view(fs: Seq<Vec<char>>) -> Seq<Seq<char>> {
    fs.map_values(|f: Vec<char>| f@)
}

/// Splits the character vector on colons, rightmost field first.
fn rsplit_chars(v: &Vec<char>) -> (r: Vec<Vec<char>>)
    ensures
        fields_view(r@) == rsplit_colon(v@),
{
    let mut fields: Vec<Vec<char>> = Vec::new();
    let mut m: usize = v.len();
    let mut done: bool = false;
    proof {
        assert(v@.take(m as int) =~= v@);
        assert(fields_view(fields@) + rsplit_colon(v@) =~~= rsplit_colon(v@));
    }
    while !done
        invariant
            m <= v@.len(),
            !done ==> fields_view(fields@) + rsplit_colon(v@.take(m as int)) == rsplit_colon(v@),
            done ==> fields_view(fields@) == rsplit_colon(v@),
        decreases m + (if done { 0int } else { 1int }),
    {
        proof {
            assert(v@.take(v@.len() as int) =~= v@);
        }
        let mut j: usize = m;
        while j > 0 && v[j - 1] != ':'
            invariant
                j <= m <= v@.len(),
                forall|i: int| j <= i < m ==> v@[i] != ':',
            decreases j,
        {
            j = j - 1;
        }
        if j == 0 {
            let fld = copy_range(v, 0, m);
            proof {
                assert(forall|i: int| 0 <= i < m ==> v@.take(m as int)[i] != ':');
                lemma_rsplit_no_colon(v@.take(m as int));
                assert(fld@ =~= v@.take(m as int));
                assert(fields_view(fields@.push(fld)) =~~= fields_view(fields@) + seq![fld@]);
                assert(fields_view(fields@.push(fld)) =~~= rsplit_colon(v@));
            }
            fields.push(fld);
            done = true;
        } else {
            let fld = copy_range(v, j, m);
            proof {
                let pre = v@.take(j - 1);
                let fseq = v@.subrange(j as int, m as int);
                assert(v@.take(m as int) =~= pre + seq![':'] + fseq);
                lemma_rsplit_last_field(pre, fseq);
                assert(fields_view(fields@.push(fld)) =~~= fields_view(fields@) + seq![fld@]);
                assert(fields_view(fields@.push(fld)) + rsplit_colon(v@.take(j - 1)) =~~= rsplit_colon(
                    v@,
                ));
            }
            fields.push(fld);
            m = j - 1;
        }
    }
    fields
}

/// A valid time field: trimmed, it denotes a `u64`.
pub open spec fn field_ok(f: Seq<char>) -> bool {
    is_u64_text(spec_trim(f))
}

pub open spec fn fields_ok(fs: Seq<Seq<char>>) -> bool {
    forall|i: int| 0 <= i < fs.len() ==> field_ok(fs[i])
}

/// The weighted sum of the time fields: the field at index `i`
/// (counting from the rightmost) contributes sixty times `i` times its
/// value, so the rightmost field always contributes nothing.
pub open spec fn fields_value(fs: Seq<Seq<char>>) -> int
    decreases fs.len(),
{
    if fs.len() == 0 {
        0
    } else {
        fields_value(fs.drop_last()) + 60 * (fs.len() - 1) * u64_text_value(spec_trim(fs.last()))
    }
}

proof fn lemma_fields_value_nonneg(fs: Seq<Seq<char>>)
    requires
        fields_ok(fs),
    ensures
        fields_value(fs) >= 0,
    decreases fs.len(),
{
    if fs.len() > 0 {
        assert(fields_ok(fs.drop_last()));
        lemma_fields_value_nonneg(fs.drop_last());
        let val = u64_text_value(spec_trim(fs.last()));
        lemma_digits_value_nonneg(num_body(spec_trim(fs.last())));
        assert(60 * (fs.len() - 1) * val >= 0) by (nonlinear_arith)
            requires
                val >= 0,
                fs.len() >= 1,
        {
        }
    }
}

proof fn lemma_fields_value_prefix_le(fs: Seq<Seq<char>>, i: int)
    requires
        fields_ok(fs),
        0 <= i <= fs.len(),
    ensures
        0 <= fields_value(fs.take(i)) <= fields_value(fs),
    decreases fs.len() - i,
{
    if i == fs.len() {
        assert(fs.take(i) =~= fs);
        lemma_fields_value_nonneg(fs);
    } else {
        lemma_fields_value_prefix_le(fs, i + 1);
        assert(fields_ok(fs.take(i)));
        lemma_fields_value_nonneg(fs.take(i));
        let p = fs.take(i + 1);
        assert(p.drop_last() =~= fs.take(i));
        assert(p.last() == fs[i]);
        let val = u64_text_value(spec_trim(fs[i]));
        lemma_digits_value_nonneg(num_body(spec_trim(fs[i])));
        assert(60 * i * val >= 0) by (nonlinear_arith)
            requires
                val >= 0,
                i >= 0,
        {
        }
        assert(fields_value(p) == fields_value(fs.take(i)) + 60 * i * val);
    }
}

/// What `parse_time` returns: the text after the first colon, split on
/// colons from the right, each field weighted by sixty times its index.
pub open spec fn spec_parse_time(line: Seq<char>) -> Result<u64, ConfigError> {
    match after_first_colon(line) {
        None => Err(ConfigError::MissingColon),
        Some(rest) => {
            let fs = rsplit_colon(rest);
            if !fields_ok(fs) {
                Err(ConfigError::InvalidNumber)
            } else if fields_value(fs) > u64::MAX {
                Err(ConfigError::Overflow)
            } else {
                Ok(fields_value(fs) as u64)
            }
        },
    }
}

fn mul_check(a: u64, b: u64) -> (r: Option<u64>)
    ensures
        match r {
            Some(x) => x as int == a as int * b as int,
            None => a as int * b as int > u64::MAX as int,
        },
{
    if a == 0 {
        Some(0)
    } else if b > u64::MAX / a {
        proof {
            vstd::arithmetic::div_mod::lemma_fundamental_div_mod(u64::MAX as int, a as int);
            let q = u64::MAX as int / a as int;
            let rem = u64::MAX as int % a as int;
            assert(a as int * b as int > u64::MAX as int) by (nonlinear_arith)
                requires
                    a as int >= 1,
                    b as int >= q + 1,
                    u64::MAX as int == q * (a as int) + rem,
                    0 <= rem < a as int,
            {
            }
        }
        None
    } else {
        proof {
            vstd::arithmetic::div_mod::lemma_fundamental_div_mod(u64::MAX as int, a as int);
            let q = u64::MAX as int / a as int;
            let rem = u64::MAX as int % a as int;
            assert(a as int * b as int <= u64::MAX as int) by (nonlinear_arith)
                requires
                    a as int >= 1,
                    0 <= b as int <= q,
                    u64::MAX as int == q * (a as int) + rem,
                    0 <= rem < a as int,
            {
            }
        }
        Some(a * b)
    }
}

impl XscreensaverSettings {
    /// Parses a duration setting line: the value after the first colon
    /// is split on colons from the right, and the field at index `i`
    /// contributes sixty times `i` times its value to the total, so the
    /// rightmost field is deliberately weighted zero.
    pub fn parse_time(line: &str) -> (r: Result<u64, ConfigError>)
        ensures
            r == spec_parse_time(line@),
    {
        let v = str_to_chars(line);
        parse_time_chars(&v)
    }
}

fn parse_time_chars(line: &Vec<char>) -> (r: Result<u64, ConfigError>)
    ensures
        r == spec_parse_time(line@),
{
    {
        let v = line;
        let n = v.len();
        match find_first_colon(v) {
            None => {
                proof {
                    lemma_after_first_colon_none(v@);
                }
                Err(ConfigError::MissingColon)
            },
            Some(k) => {
                proof {
                    lemma_after_first_colon_at(v@, k as int);
                }
                let rest = copy_range(v, k + 1, n);
                let fields = rsplit_chars(&rest);
                let ghost fs = rsplit_colon(rest@);
                let fl = fields.len();
                let mut values: Vec<u64> = Vec::new();
                let mut i: usize = 0;
                while i < fl
                    invariant
                        line@ == v@,
                        after_first_colon(line@) == Some(rest@),
                        fs == rsplit_colon(rest@),
                        fields_view(fields@) == fs,
                        fl == fields@.len(),
                        i <= fl,
                        values@.len() == i,
                        forall|j: int| #![trigger fs[j]]
                            0 <= j < i ==> field_ok(fs[j]) && values@[j] as int == u64_text_value(
                                spec_trim(fs[j]),
                            ),
                    decreases fl - i,
                {
                    proof {
                        assert(fields_view(fields@)[i as int] == fields@[i as int]@);
                    }
                    let t = trim_chars(&fields[i]);
                    match parse_u64_chars(&t) {
                        None => {
                            proof {
                                assert(!field_ok(fs[i as int]));
                            }
                            return Err(ConfigError::InvalidNumber);
                        },
                        Some(x) => {
                            values.push(x);
                        },
                    }
                    i = i + 1;
                }
                proof {
                    assert forall|j: int| 0 <= j < fs.len() implies field_ok(fs[j]) by {
                        assert(fs[j] == fs[j]);
                    }
                    assert(fields_ok(fs));
                }
                let mut total: u64 = 0;
                let mut i2: usize = 0;
                while i2 < fl
                    invariant
                        line@ == v@,
                        after_first_colon(line@) == Some(rest@),
                        fs == rsplit_colon(rest@),
                        fields_view(fields@) == fs,
                        fields_ok(fs),
                        fl == fields@.len() == fs.len(),
                        i2 <= fl,
                        values@.len() == fl,
                        forall|j: int| #![trigger fs[j]]
                            0 <= j < fl ==> values@[j] as int == u64_text_value(spec_trim(fs[j])),
                        total as int == fields_value(fs.take(i2 as int)),
                    decreases fl - i2,
                {
                    let val = values[i2];
                    proof {
                        assert(fs.take(i2 + 1).drop_last() =~= fs.take(i2 as int));
                        assert(fs.take(i2 + 1).last() == fs[i2 as int]);
                        lemma_fields_value_prefix_le(fs, i2 + 1);
                        assert(fields_value(fs.take(i2 + 1)) == fields_value(fs.take(i2 as int))
                            + 60 * (i2 as int) * u64_text_value(spec_trim(fs[i2 as int])));
                        assert(val as int == u64_text_value(spec_trim(fs[i2 as int])));
                    }
                    let term: u64;
                    if val == 0 {
                        proof {
                            assert(60 * (i2 as int) * (val as int) == 0) by (nonlinear_arith)
                                requires
                                    val as int == 0,
                            {
                            }
                        }
                        term = 0;
                    } else {
                        match mul_check(60, i2 as u64) {
                            None => {
                                proof {
                                    assert(60 * (i2 as int) * (val as int) > u64::MAX as int)
                                        by (nonlinear_arith)
                                        requires
                                            60 * (i2 as int) > u64::MAX as int,
                                            val as int >= 1,
                                    {
                                    }
                                }
                                return Err(ConfigError::Overflow);
                            },
                            Some(w) => {
                                match mul_check(w, val) {
                                    None => {
                                        proof {
                                            assert((60 * (i2 as int)) * (val as int) == 60 * (
                                            i2 as int) * (val as int)) by (nonlinear_arith) {
                                            }
                                        }
                                        return Err(ConfigError::Overflow);
                                    },
                                    Some(t) => {
                                        proof {
                                            assert((60 * (i2 as int)) * (val as int) == 60 * (
                                            i2 as int) * (val as int)) by (nonlinear_arith) {
                                            }
                                        }
                                        term = t;
                                    },
                                }
                            },
                        }
                    }
                    if total > u64::MAX - term {
                        return Err(ConfigError::Overflow);
                    }
                    total = total + term;
                    i2 = i2 + 1;
                }
                proof {
                    assert(fs.take(fl as int) =~= fs);
                }
                Ok(total)
            },
        }
    }
}

/// Whether `pat` occurs contiguously anywhere in `s`.
pub open spec fn contains_seq(s: Seq<char>, pat: Seq<char>) -> bool {
    exists|i: int|
        0 <= i && i + pat.len() <= s.len() && #[trigger] s.subrange(i, i + pat.len()) == pat
}

/// Whether the pattern occurs contiguously in the haystack.
pub(crate) fn contains_pat(hay: &Vec<char>, pat: &Vec<char>) -> (r: bool)
    ensures
        r == contains_seq(hay@, pat@),
{
    let hl = hay.len();
    let pl = pat.len();
    if pl > hl {
        return false;
    }
    let mut i: usize = 0;
    while i <= hl - pl
        invariant
            pl <= hl,
            hl == hay@.len(),
            pl == pat@.len(),
            i <= hl - pl + 1,
            forall|k: int| 0 <= k < i ==> #[trigger] hay@.subrange(k, k + pl) != pat@,
        decreases hl - pl + 1 - i,
    {
        let mut j: usize = 0;
        while j < pl && hay[i + j] == pat[j]
            invariant
                pl <= hl,
                hl == hay@.len(),
                pl == pat@.len(),
                i + pl <= hl,
                j <= pl,
                forall|q: int| 0 <= q < j ==> hay@[i + q] == pat@[q],
            decreases pl - j,
        {
            j = j + 1;
        }
        if j == pl {
            proof {
                assert(hay@.subrange(i as int, i + pl) =~= pat@);
            }
            return true;
        }
        proof {
            assert(hay@.subrange(i as int, i + pl)[j as int] != pat@[j as int]);
        }
        i = i + 1;
    }
    proof {
        assert forall|k: int| 0 <= k && k + pat@.len() <= hay@.len() implies #[trigger] hay@
            .subrange(k, k + pl) != pat@ by {
            assert(k < i);
        }
    }
    false
}

pub open spec fn key_enabled() -> Seq<char> {
    seq!['d', 'p', 'm', 's', 'E', 'n', 'a', 'b', 'l', 'e', 'd']
}

pub open spec fn key_off() -> Seq<char> {
    seq!['d', 'p', 'm', 's', 'O', 'f', 'f']
}

pub open spec fn key_passwd() -> Seq<char> {
    seq!['p', 'a', 's', 's', 'w', 'd', 'T', 'i', 'm', 'e', 'o', 'u', 't']
}

fn key_enabled_chars() -> (r: Vec<char>)
    ensures
        r@ == key_enabled(),
{
    let v = str_to_chars("dpmsEnabled");
    proof {
        reveal_strlit("dpmsEnabled");
        assert(v@ =~= key_enabled());
    }
    v
}

fn key_off_chars() -> (r: Vec<char>)
    ensures
        r@ == key_off(),
{
    let v = str_to_chars("dpmsOff");
    proof {
        reveal_strlit("dpmsOff");
        assert(v@ =~= key_off());
    }
    v
}

fn key_passwd_chars() -> (r: Vec<char>)
    ensures
        r@ == key_passwd(),
{
    let v = str_to_chars("passwdTimeout");
    proof {
        reveal_strlit("passwdTimeout");
        assert(v@ =~= key_passwd());
    }
    v
}

/// The pieces of the text split on newlines, leftmost piece first.
pub open spec fn lsplit_nl(s: Seq<char>) -> Seq<Seq<char>>
    decreases s.len(),
{
    if s.len() == 0 {
        seq![Seq::<char>::empty()]
    } else if s[0] == '\n' {
        seq![Seq::<char>::empty()] + lsplit_nl(s.drop_first())
    } else {
        let r = lsplit_nl(s.drop_first());
        seq![seq![s[0]] + r[0]] + r.drop_first()
    }
}

proof fn lemma_lsplit_len(s: Seq<char>)
    ensures
        lsplit_nl(s).len() >= 1,
    decreases s.len(),
{
    if s.len() > 0 {
        lemma_lsplit_len(s.drop_first());
    }
}

proof fn lemma_lsplit_no_nl(p: Seq<char>)
    requires
        forall|i: int| 0 <= i < p.len() ==> p[i] != '\n',
    ensures
        lsplit_nl(p) == seq![p],
    decreases p.len(),
{
    if p.len() == 0 {
        assert(lsplit_nl(p) =~~= seq![p]);
    } else {
        lemma_lsplit_no_nl(p.drop_first());
        assert(seq![p[0]] + p.drop_first() =~= p);
        assert(lsplit_nl(p) =~~= seq![p]);
    }
}

proof fn lemma_lsplit_head(p: Seq<char>, rest: Seq<char>)
    requires
        forall|i: int| 0 <= i < p.len() ==> p[i] != '\n',
    ensures
        lsplit_nl(p + seq!['\n'] + rest) == seq![p] + lsplit_nl(rest),
    decreases p.len(),
{
    let s = p + seq!['\n'] + rest;
    if p.len() == 0 {
        assert(s[0] == '\n');
        assert(s.drop_first() =~= rest);
        assert(lsplit_nl(s) =~~= seq![p] + lsplit_nl(rest));
    } else {
        assert(s[0] == p[0] && p[0] != '\n');
        assert(s.drop_first() =~= p.drop_first() + seq!['\n'] + rest);
        lemma_lsplit_head(p.drop_first(), rest);
        lemma_lsplit_len(rest);
        let r = lsplit_nl(s.drop_first());
        assert(r == seq![p.drop_first()] + lsplit_nl(rest));
        assert(r[0] == p.drop_first());
        assert(seq![s[0]] + r[0] =~= p);
        assert(r.drop_first() =~= lsplit_nl(rest));
        assert(lsplit_nl(s) =~~= seq![p] + lsplit_nl(rest));
    }
}

/// A piece with one trailing carriage return removed.
pub open spec fn strip_cr(l: Seq<char>) -> Seq<char> {
    if l.len() > 0 && l[l.len() - 1] == '\r' {
        l.drop_last()
    } else {
        l
    }
}

/// The lines of the text: split on newlines, a carriage return before
/// each newline dropped, and a final empty piece (from a trailing
/// newline) dropped; a last line without a newline is kept verbatim.
pub open spec fn spec_lines(s: Seq<char>) -> Seq<Seq<char>> {
    if s.len() == 0 {
        Seq::empty()
    } else {
        let ps = lsplit_nl(s);
        if ps.last().len() == 0 {
            ps.drop_last().map_values(|l: Seq<char>| strip_cr(l))
        } else {
            ps.drop_last().map_values(|l: Seq<char>| strip_cr(l)).push(ps.last())
        }
    }
}

proof fn lemma_spec_lines_step(p: Seq<char>, rest: Seq<char>)
    requires
        forall|i: int| 0 <= i < p.len() ==> p[i] != '\n',
    ensures
        spec_lines(p + seq!['\n'] + rest) == seq![strip_cr(p)] + spec_lines(rest),
{
    let s = p + seq!['\n'] + rest;
    lemma_lsplit_head(p, rest);
    lemma_lsplit_len(rest);
    let q = lsplit_nl(rest);
    let ps = lsplit_nl(s);
    assert(ps == seq![p] + q);
    assert(ps.len() == 1 + q.len());
    assert(ps.last() == q.last());
    if rest.len() == 0 {
        assert(q =~~= seq![Seq::<char>::empty()]);
        assert(ps.last().len() == 0);
        assert(ps.drop_last() =~~= seq![p]);
        assert(ps.drop_last().map_values(|l: Seq<char>| strip_cr(l)) =~~= seq![strip_cr(p)]);
        assert(spec_lines(rest) =~~= Seq::<Seq<char>>::empty());
        assert(spec_lines(s) =~~= seq![strip_cr(p)] + spec_lines(rest));
    } else {
        assert(ps.drop_last() =~~= seq![p] + q.drop_last());
        assert(ps.drop_last().map_values(|l: Seq<char>| strip_cr(l)) =~~= seq![strip_cr(p)]
            + q.drop_last().map_values(|l: Seq<char>| strip_cr(l)));
        if q.last().len() == 0 {
            assert(spec_lines(s) =~~= seq![strip_cr(p)] + spec_lines(rest));
        } else {
            assert(spec_lines(s) =~~= seq![strip_cr(p)] + spec_lines(rest));
        }
    }
}

proof fn lemma_spec_lines_tail(p: Seq<char>)
    requires
        forall|i: int| 0 <= i < p.len() ==> p[i] != '\n',
        p.len() > 0,
    ensures
        spec_lines(p) == seq![p],
{
    lemma_lsplit_no_nl(p);
    let ps = lsplit_nl(p);
    assert(ps.last() == p);
    assert(ps.drop_last() =~~= Seq::<Seq<char>>::empty());
    assert(spec_lines(p) =~~= seq![p]);
}

/// Splits the character vector into its lines.
fn split_lines(v: &Vec<char>) -> (r: Vec<Vec<char>>)
    ensures
        fields_view(r@) == spec_lines(v@),
{
    let n = v.len();
    let mut lines: Vec<Vec<char>> = Vec::new();
    let mut start: usize = 0;
    let mut i: usize = 0;
    proof {
        assert(v@.subrange(0, n as int) =~= v@);
        assert(fields_view(lines@) + spec_lines(v@) =~~= spec_lines(v@));
    }
    while i < n
        invariant
            start <= i <= n,
            n == v@.len(),
            forall|q: int| start <= q < i ==> v@[q] != '\n',
            spec_lines(v@) == fields_view(lines@) + spec_lines(v@.subrange(start as int, n as int)),
        decreases n - i,
    {
        if v[i] == '\n' {
            let piece: Vec<char>;
            if i > start && v[i - 1] == '\r' {
                piece = copy_range(v, start, i - 1);
            } else {
                piece = copy_range(v, start, i);
            }
            proof {
                let p = v@.subrange(start as int, i as int);
                assert(piece@ =~= strip_cr(p));
                assert(v@.subrange(start as int, n as int) =~= p + seq!['\n'] + v@.subrange(
                    i + 1,
                    n as int,
                ));
                lemma_spec_lines_step(p, v@.subrange(i + 1, n as int));
                assert(fields_view(lines@.push(piece)) =~~= fields_view(lines@) + seq![piece@]);
                assert(spec_lines(v@) =~~= fields_view(lines@.push(piece)) + spec_lines(
                    v@.subrange(i + 1, n as int),
                ));
            }
            lines.push(piece);
            start = i + 1;
        }
        i = i + 1;
    }
    if start < n {
        let piece = copy_range(v, start, n);
        proof {
            let p = v@.subrange(start as int, n as int);
            lemma_spec_lines_tail(p);
            assert(fields_view(lines@.push(piece)) =~~= fields_view(lines@) + seq![piece@]);
            assert(spec_lines(v@) =~~= fields_view(lines@.push(piece)));
        }
        lines.push(piece);
    } else {
        proof {
            assert(v@.subrange(start as int, n as int) =~= Seq::<char>::empty());
            assert(spec_lines(Seq::<char>::empty()) =~~= Seq::<Seq<char>>::empty());
            assert(fields_view(lines@) =~~= spec_lines(v@));
        }
    }
    lines
}

/// The settings before any line has been read: everything at its zero
/// value.
pub open spec fn default_settings() -> XscreensaverSettings {
    XscreensaverSettings { dpms_enabled: false, dpms_off: 0, password_timeout: 0 }
}

/// How one configuration line updates the settings: the first key whose
/// name occurs anywhere in the line decides how the line is parsed, and
/// a line matching no key is ignored.
pub open spec fn spec_load_line(acc: XscreensaverSettings, l: Seq<char>) -> Result<
    XscreensaverSettings,
    ConfigError,
> {
    if contains_seq(l, key_enabled()) {
        match spec_parse_bool(l) {
            Ok(b) => Ok(XscreensaverSettings { dpms_enabled: b, ..acc }),
            Err(e) => Err(e),
        }
    } else if contains_seq(l, key_off()) {
        match spec_parse_time(l) {
            Ok(d) => Ok(XscreensaverSettings { dpms_off: d, ..acc }),
            Err(e) => Err(e),
        }
    } else if contains_seq(l, key_passwd()) {
        match spec_parse_time(l) {
            Ok(d) => Ok(XscreensaverSettings { password_timeout: d, ..acc }),
            Err(e) => Err(e),
        }
    } else {
        Ok(acc)
    }
}

/// Folds the lines over the settings, stopping at the first bad line.
pub open spec fn spec_load_lines(ls: Seq<Seq<char>>, acc: XscreensaverSettings) -> Result<
    XscreensaverSettings,
    ConfigError,
>
    decreases ls.len(),
{
    if ls.len() == 0 {
        Ok(acc)
    } else {
        match spec_load_line(acc, ls[0]) {
            Ok(a2) => spec_load_lines(ls.drop_first(), a2),
            Err(e) => Err(e),
        }
    }
}

/// What `load` returns for a whole configuration text.
pub open spec fn spec_load(text: Seq<char>) -> Result<XscreensaverSettings, ConfigError> {
    spec_load_lines(spec_lines(text), default_settings())
}

impl XscreensaverSettings {
    /// Parses a whole configuration text, line by line: a line whose
    /// text contains a key's name anywhere sets that key's field, later
    /// lines overriding earlier ones, and keys never seen stay at their
    /// zero values.
    pub fn load(config: &str) -> (r: Result<XscreensaverSettings, ConfigError>)
        ensures
            r == spec_load(config@),
    {
        let v = str_to_chars(config);
        let lines = split_lines(&v);
        let ghost ls = spec_lines(v@);
        let ke = key_enabled_chars();
        let ko = key_off_chars();
        let kp = key_passwd_chars();
        let mut acc = XscreensaverSettings { dpms_enabled: false, dpms_off: 0, password_timeout: 0 };
        let nl = lines.len();
        let mut i: usize = 0;
        proof {
            assert(ls.skip(0) =~~= ls);
        }
        while i < nl
            invariant
                config@ == v@,
                ls == spec_lines(v@),
                fields_view(lines@) == ls,
                nl == lines@.len(),
                ke@ == key_enabled(),
                ko@ == key_off(),
                kp@ == key_passwd(),
                i <= nl,
                spec_load(config@) == spec_load_lines(ls.skip(i as int), acc),
            decreases nl - i,
        {
            proof {
                assert(fields_view(lines@)[i as int] == lines@[i as int]@);
                assert(ls.skip(i as int).drop_first() =~~= ls.skip(i + 1));
                assert(ls.skip(i as int)[0] == ls[i as int]);
            }
            let line_v = &lines[i];
            if contains_pat(line_v, &ke) {
                match parse_bool_chars(line_v) {
                    Ok(b) => {
                        acc = XscreensaverSettings { dpms_enabled: b, ..acc };
                    },
                    Err(e) => {
                        return Err(e);
                    },
                }
            } else if contains_pat(line_v, &ko) {
                match parse_time_chars(line_v) {
                    Ok(d) => {
                        acc = XscreensaverSettings { dpms_off: d, ..acc };
                    },
                    Err(e) => {
                        return Err(e);
                    },
                }
            } else if contains_pat(line_v, &kp) {
                match parse_time_chars(line_v) {
                    Ok(d) => {
                        acc = XscreensaverSettings { password_timeout: d, ..acc };
                    },
                    Err(e) => {
                        return Err(e);
                    },
                }
            }
            i = i + 1;
        }
        proof {
            assert(ls.skip(nl as int) =~~= Seq::<Seq<char>>::empty());
        }
        Ok(acc)
    }
}

/// Law: the rightmost time field never contributes to the parsed
/// duration — replacing it by any other text leaves the weighted sum
/// unchanged, because its weight is sixty times zero.
pub proof fn lemma_rightmost_field_ignored(fs: Seq<Seq<char>>, f: Seq<char>)
    requires
        fs.len() >= 1,
    ensures
        fields_value(fs.update(0, f)) == fields_value(fs),
    decreases fs.len(),
{
    let g = fs.update(0, f);
    if fs.len() == 1 {
        assert(g.drop_last() =~~= fs.drop_last());
        let vx = u64_text_value(spec_trim(g.last()));
        let vy = u64_text_value(spec_trim(fs.last()));
        assert(60 * (g.len() - 1) * vx == 0) by (nonlinear_arith)
            requires
                g.len() == 1,
        {
        }
        assert(60 * (fs.len() - 1) * vy == 0) by (nonlinear_arith)
            requires
                fs.len() == 1,
        {
        }
    } else {
        assert(g.drop_last() =~~= fs.drop_last().update(0, f));
        assert(g.last() == fs.last());
        lemma_rightmost_field_ignored(fs.drop_last(), f);
    }
}

/// Law: a duration whose fields left of the rightmost are all zero
/// parses to zero, whatever the rightmost field holds — so a value
/// text such as `0:0:5` always denotes the zero duration.
pub proof fn lemma_zero_upper_fields(fs: Seq<Seq<char>>)
    requires
        fs.len() >= 1,
        forall|i: int| 1 <= i < fs.len() ==> u64_text_value(spec_trim(#[trigger] fs[i])) == 0,
    ensures
        fields_value(fs) == 0,
    decreases fs.len(),
{
    let v = u64_text_value(spec_trim(fs.last()));
    if fs.len() == 1 {
        assert(fs.drop_last().len() == 0);
        assert(fields_value(fs.drop_last()) == 0);
        assert(60 * (fs.len() - 1) * v == 0) by (nonlinear_arith)
            requires
                fs.len() == 1,
        {
        }
        assert(fields_value(fs) == fields_value(fs.drop_last()) + 60 * (fs.len() - 1) * v);
    } else {
        assert(v == 0);
        assert(60 * (fs.len() - 1) * v == 0) by (nonlinear_arith)
            requires
                v == 0,
        {
        }
        assert forall|i: int|
            1 <= i < fs.drop_last().len() implies u64_text_value(
            spec_trim(#[trigger] fs.drop_last()[i]),
        ) == 0 by {
            assert(fs.drop_last()[i] == fs[i]);
        }
        lemma_zero_upper_fields(fs.drop_last());
        assert(fields_value(fs) == fields_value(fs.drop_last()) + 60 * (fs.len() - 1) * v);
    }
}

proof fn lemma_load_lines_no_enabled(ls: Seq<Seq<char>>, acc: XscreensaverSettings)
    requires
        forall|i: int| 0 <= i < ls.len() ==> !contains_seq(#[trigger] ls[i], key_enabled()),
        !acc.dpms_enabled,
    ensures
        spec_load_lines(ls, acc) matches Ok(s) ==> !s.dpms_enabled,
    decreases ls.len(),
{
    if ls.len() > 0 {
        match spec_load_line(acc, ls[0]) {
            Ok(a2) => {
                assert(!a2.dpms_enabled);
                assert(forall|i: int|
                    0 <= i < ls.drop_first().len() ==> !contains_seq(
                        #[trigger] ls.drop_first()[i],
                        key_enabled(),
                    ));
                lemma_load_lines_no_enabled(ls.drop_first(), a2);
            },
            Err(_) => {
            },
        }
    }
}

/// Law: a configuration text none of whose lines mentions the
/// enabled key leaves suspension disabled in any settings it yields.
pub proof fn lemma_missing_enabled_key(text: Seq<char>)
    requires
        forall|i: int|
            0 <= i < spec_lines(text).len() ==> !contains_seq(
                #[trigger] spec_lines(text)[i],
                key_enabled(),
            ),
    ensures
        spec_load(text) matches Ok(s) ==> !s.dpms_enabled,
{
    lemma_load_lines_no_enabled(spec_lines(text), default_settings());
}

} // verus!
