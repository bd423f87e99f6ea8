//! Character-level text helpers: string comparison, dotted paths,
//! UTF-8 byte widths and decimal integers.
use vstd::prelude::*;
use vstd::utf8::*;


verus! {

broadcast use vstd::string::group_string_axioms;

// ---------------------------------------------------------------------
// Strings and characters
// ---------------------------------------------------------------------

/// `a` and `b` hold the same characters.
pub fn str_eq(a: &str, b: &str) -> (r: bool)
    ensures
        r == (a@ == b@),
{
    let ab = a.as_bytes();
    let bb = b.as_bytes();
    proof {
        encode_utf8_decode_utf8(a@);
        encode_utf8_decode_utf8(b@);
    }
    proof {
        if a@ == b@ {
            assert(ab@ == bb@);
        }
    }
    if ab.len() != bb.len() {
        return false;
    }
    let n = ab.len();
    let mut i: usize = 0;
    while i < n
        invariant
            n == ab@.len(),
            n == bb@.len(),
            i <= n,
            forall|j: int| 0 <= j < i ==> ab@[j] == bb@[j],
            a@ == b@ ==> ab@ == bb@,
        decreases n - i,
    {
        if ab[i] != bb[i] {
            return false;
        }
        i = i + 1;
    }
    assert(ab@ =~= bb@);
    true
}

/// `String::push`: afterwards the string holds its former characters
/// followed by `c`.
#[verifier::external_body]
pub(crate) fn push_char(s: &mut String, c: char)
    ensures
        final(s)@ == old(s)@.push(c),
{
    s.push(c)
}

/// The characters of `s`, in order.
pub fn chars_of(s: &str) -> (v: Vec<char>)
    ensures
        v@ == s@,
{
    let mut v: Vec<char> = Vec::new();
    for c in it: s.chars()
        invariant
            v@ == it.seq().take(it.index() as int),
    {
        proof {
            assert(it.seq().take(it.index() + 1) =~= it.seq().take(it.index() as int).push(c));
        }
        v.push(c);
    }
    v
}

/// A string made of the characters `v[lo..hi]`.
pub fn string_from_chars(v: &Vec<char>, lo: usize, hi: usize) -> (s: String)
    requires
        lo <= hi <= v@.len(),
    ensures
        s@ == v@.subrange(lo as int, hi as int),
{
    let mut s = String::new();
    let mut i = lo;
    while i < hi
        invariant
            lo <= i <= hi <= v@.len(),
            s@ == v@.subrange(lo as int, i as int),
        decreases hi - i,
    {
        push_char(&mut s, v[i]);
        proof {
            assert(v@.subrange(lo as int, i + 1) =~= v@.subrange(lo as int, i as int).push(v@[i as int]));
        }
        i = i + 1;
    }
    s
}

/// A string holding a copy of `s`.
pub fn string_of(s: &str) -> (r: String)
    ensures
        r@ == s@,
{
    s.to_owned()
}

/// `a` followed by `b`.
pub fn concat_strings(a: &str, b: &str) -> (r: String)
    ensures
        r@ == a@ + b@,
{
    let mut r = a.to_owned();
    let bc = chars_of(b);
    let mut i: usize = 0;
    while i < bc.len()
        invariant
            i <= bc@.len(),
            bc@ == b@,
            r@ == a@ + b@.take(i as int),
        decreases bc@.len() - i,
    {
        push_char(&mut r, bc[i]);
        proof {
            assert(b@.take(i + 1) =~= b@.take(i as int).push(b@[i as int]));
        }
        i = i + 1;
    }
    proof {
        assert(b@.take(b@.len() as int) =~= b@);
    }
    r
}

// ---------------------------------------------------------------------
// Dotted paths
// ---------------------------------------------------------------------

/// The path of a node named `key` under the node at `prefix`:
/// the key alone at the top level, else `prefix.key`.
pub open spec fn join_path(prefix: Seq<char>, key: Seq<char>) -> Seq<char> {
    if prefix.len() == 0 {
        key
    } else {
        prefix + seq!['.'] + key
    }
}

/// The path of `key` under `prefix` (see `join_path`).
pub fn join_path_exec(prefix: &str, key: &str) -> (r: String)
    ensures
        r@ == join_path(prefix@, key@),
{
    if prefix.is_empty() {
        key.to_owned()
    } else {
        let mut r = prefix.to_owned();
        push_char(&mut r, '.');
        let r2 = concat_strings(r.as_str(), key);
        proof {
            assert(r2@ =~= prefix@ + seq!['.'] + key@);
        }
        r2
    }
}

/// The pieces of `s` between dots, as `str::split('.')` yields them.
pub open spec fn split_dots(s: Seq<char>) -> Seq<Seq<char>>
    decreases s.len(),
{
    if s.len() == 0 {
        seq![Seq::<char>::empty()]
    } else if s.last() == '.' {
        split_dots(s.drop_last()).push(Seq::<char>::empty())
    } else {
        let p = split_dots(s.drop_last());
        p.update(p.len() - 1, p.last().push(s.last()))
    }
}

pub proof fn lemma_split_dots_nonempty(s: Seq<char>)
    ensures
        split_dots(s).len() >= 1,
    decreases s.len(),
{
    if s.len() > 0 {
        lemma_split_dots_nonempty(s.drop_last());
    }
}

/// A string with no dot is its own single piece.
pub proof fn lemma_split_no_dot(s: Seq<char>)
    requires
        !s.contains('.'),
    ensures
        split_dots(s) == seq![s],
    decreases s.len(),
{
    if s.len() > 0 {
        assert(!s.drop_last().contains('.')) by {
            if s.drop_last().contains('.') {
                let j = choose|j: int| 0 <= j < s.drop_last().len() && s.drop_last()[j] == '.';
                assert(s[j] == '.');
            }
        }
        lemma_split_no_dot(s.drop_last());
        assert(s.last() != '.') by {
            assert(s[s.len() - 1] == s.last());
            assert(s.contains(s[s.len() - 1]));
        }
        assert(s.drop_last().push(s.last()) =~= s);
        let p = split_dots(s.drop_last());
        assert(p =~= seq![s.drop_last()]);
        assert(p.last() == s.drop_last());
        assert(p.update(0, p.last().push(s.last())) =~= seq![s]);
        assert(split_dots(s) == p.update(p.len() - 1, p.last().push(s.last())));
    } else {
        assert(s =~= Seq::<char>::empty());
    }
}

/// Splitting `a.b` splits `a`, then adds `b` (when `b` has no dot).
pub proof fn lemma_split_append(a: Seq<char>, b: Seq<char>)
    requires
        !b.contains('.'),
    ensures
        split_dots(a + seq!['.'] + b) == split_dots(a).push(b),
    decreases b.len(),
{
    if b.len() == 0 {
        assert((a + seq!['.'] + b).drop_last() =~= a);
        assert((a + seq!['.'] + b).last() == '.');
        assert(b =~= Seq::<char>::empty());
        assert(split_dots(a + seq!['.'] + b) =~= split_dots(a).push(b));
    } else {
        let bb = b.drop_last();
        assert(!bb.contains('.')) by {
            if bb.contains('.') {
                let j = choose|j: int| 0 <= j < bb.len() && bb[j] == '.';
                assert(b[j] == '.');
            }
        }
        lemma_split_append(a, bb);
        assert((a + seq!['.'] + b).drop_last() =~= a + seq!['.'] + bb);
        assert((a + seq!['.'] + b).last() == b.last());
        assert(b.last() != '.') by {
            assert(b[b.len() - 1] == b.last());
            assert(b.contains(b[b.len() - 1]));
        }
        assert(bb.push(b.last()) =~= b);
        let p = split_dots(a);
        lemma_split_dots_nonempty(a + seq!['.'] + bb);
        let q = split_dots(a + seq!['.'] + bb);
        assert(q =~= p.push(bb));
        assert(q.update(q.len() - 1, q.last().push(b.last())) =~= p.push(b));
        assert(split_dots(a + seq!['.'] + b) =~= split_dots(a).push(b));
    }
}

/// The pieces of a joined path: those of the prefix, then the key
/// (for keys without dots).
pub proof fn lemma_split_join(prefix: Seq<char>, key: Seq<char>)
    requires
        !key.contains('.'),
    ensures
        split_dots(join_path(prefix, key)) == (if prefix.len() == 0 {
            seq![key]
        } else {
            split_dots(prefix).push(key)
        }),
{
    if prefix.len() == 0 {
        lemma_split_no_dot(key);
    } else {
        lemma_split_append(prefix, key);
    }
}

/// `s.split('.')`, collected.
pub fn split_dots_exec(s: &str) -> (parts: Vec<String>)
    ensures
        parts@.len() == split_dots(s@).len(),
        forall|i: int| 0 <= i < parts@.len() ==> #[trigger] parts@[i]@ == split_dots(s@)[i],
{
    let cs = chars_of(s);
    let mut parts: Vec<String> = Vec::new();
    let mut cur = String::new();
    let mut i: usize = 0;
    while i < cs.len()
        invariant
            cs@ == s@,
            i <= cs@.len(),
            parts@.len() + 1 == split_dots(cs@.take(i as int)).len(),
            forall|j: int| 0 <= j < parts@.len() ==> #[trigger] parts@[j]@ == split_dots(cs@.take(i as int))[j],
            cur@ == split_dots(cs@.take(i as int)).last(),
        decreases cs@.len() - i,
    {
        let c = cs[i];
        let ghost pre = cs@.take(i as int);
        proof {
            assert(cs@.take(i + 1).drop_last() =~= pre);
            assert(cs@.take(i + 1).last() == c);
            lemma_split_dots_nonempty(pre);
        }
        if c == '.' {
            let done = cur;
            parts.push(done);
            cur = String::new();
            proof {
                assert forall|j: int| 0 <= j < parts@.len() implies #[trigger] parts@[j]@ == split_dots(cs@.take(i + 1))[j] by {
                    if j < parts@.len() - 1 {
                    } else {
                        assert(split_dots(pre)[j] == split_dots(pre).last());
                    }
                }
            }
        } else {
            push_char(&mut cur, c);
        }
        i = i + 1;
    }
    proof {
        assert(cs@.take(cs@.len() as int) =~= cs@);
        lemma_split_dots_nonempty(cs@);
    }
    parts.push(cur);
    proof {
        assert forall|j: int| 0 <= j < parts@.len() implies #[trigger] parts@[j]@ == split_dots(s@)[j] by {
            if j == parts@.len() - 1 {
                assert(split_dots(s@)[j] == split_dots(s@).last());
            }
        }
    }
    parts
}

/// Position of the last dot in `s`, as `str::rfind('.')` gives it.
pub open spec fn last_dot(s: Seq<char>) -> Option<int>
    decreases s.len(),
{
    if s.len() == 0 {
        None
    } else if s.last() == '.' {
        Some(s.len() - 1)
    } else {
        last_dot(s.drop_last())
    }
}

pub proof fn lemma_last_dot_bounds(s: Seq<char>)
    ensures
        last_dot(s) matches Some(d) ==> 0 <= d < s.len() && s[d] == '.',
    decreases s.len(),
{
    if s.len() > 0 && s.last() != '.' {
        lemma_last_dot_bounds(s.drop_last());
    }
}

/// The last dot of `a.b` is the one before `b` (for `b` without dots).
pub proof fn lemma_last_dot_append(a: Seq<char>, b: Seq<char>)
    requires
        !b.contains('.'),
    ensures
        last_dot(a + seq!['.'] + b) == Some(a.len() as int),
    decreases b.len(),
{
    if b.len() == 0 {
        assert((a + seq!['.'] + b).last() == '.');
    } else {
        let bb = b.drop_last();
        assert(!bb.contains('.')) by {
            if bb.contains('.') {
                let j = choose|j: int| 0 <= j < bb.len() && bb[j] == '.';
                assert(b[j] == '.');
            }
        }
        lemma_last_dot_append(a, bb);
        assert((a + seq!['.'] + b).drop_last() =~= a + seq!['.'] + bb);
        assert(b.last() != '.') by {
            assert(b[b.len() - 1] == b.last());
            assert(b.contains(b[b.len() - 1]));
        }
        assert((a + seq!['.'] + b).last() == b.last());
    }
}

/// The index of the last dot among `s` (see `last_dot`).
pub fn last_dot_exec(s: &Vec<char>) -> (r: Option<usize>)
    ensures
        r matches Some(d) ==> last_dot(s@) == Some(d as int),
        r is None ==> last_dot(s@) is None,
{
    let mut i = s.len();
    assert(s@.take(i as int) =~= s@);
    while i > 0
        invariant
            i <= s@.len(),
            last_dot(s@) == last_dot(s@.take(i as int)),
        decreases i,
    {
        proof {
            assert(s@.take(i as int).drop_last() =~= s@.take(i - 1));
            assert(s@.take(i as int).last() == s@[i - 1]);
        }
        if s[i - 1] == '.' {
            return Some(i - 1);
        }
        i = i - 1;
    }
    proof {
        assert(s@.take(0) =~= Seq::<char>::empty());
    }
    None
}

// ---------------------------------------------------------------------
// UTF-8 widths
// ---------------------------------------------------------------------

/// Number of bytes of `c` in UTF-8.
pub open spec fn char_width(c: char) -> nat {
    if (c as u32) < 0x80 {
        1
    } else if (c as u32) < 0x800 {
        2
    } else if (c as u32) < 0x10000 {
        3
    } else {
        4
    }
}

/// Number of bytes of `s` in UTF-8.
pub open spec fn byte_len(s: Seq<char>) -> nat
    decreases s.len(),
{
    if s.len() == 0 {
        0
    } else {
        byte_len(s.drop_last()) + char_width(s.last())
    }
}

/// `char::len_utf8`.
pub fn char_width_exec(c: char) -> (w: usize)
    ensures
        w == char_width(c),
        1 <= w <= 4,
{
    let u = c as u32;
    if u < 0x80 {
        1
    } else if u < 0x800 {
        2
    } else if u < 0x10000 {
        3
    } else {
        4
    }
}

pub proof fn lemma_encode_scalar_len(c: char)
    ensures
        encode_scalar(c as u32).len() == char_width(c),
{
    char_is_scalar(c);
}

pub proof fn lemma_encode_utf8_append(a: Seq<char>, b: Seq<char>)
    ensures
        encode_utf8(a + b) == encode_utf8(a) + encode_utf8(b),
    decreases a.len(),
{
    if a.len() == 0 {
        assert(a + b =~= b);
        assert(encode_utf8(a) =~= Seq::<u8>::empty());
        assert(encode_utf8(a) + encode_utf8(b) =~= encode_utf8(b));
    } else {
        lemma_encode_utf8_append(a.drop_first(), b);
        assert((a + b).drop_first() =~= a.drop_first() + b);
        assert((a + b)[0] == a[0]);
        assert(encode_utf8(a + b) =~= encode_scalar(a[0] as u32) + encode_utf8(a.drop_first() + b));
    }
}

/// The UTF-8 encoding of `s` has `byte_len(s)` bytes.
pub proof fn lemma_byte_len_encode(s: Seq<char>)
    ensures
        encode_utf8(s).len() == byte_len(s),
    decreases s.len(),
{
    if s.len() > 0 {
        lemma_byte_len_encode(s.drop_last());
        lemma_encode_utf8_append(s.drop_last(), seq![s.last()]);
        assert(s.drop_last() + seq![s.last()] =~= s);
        lemma_encode_scalar_len(s.last());
        assert(seq![s.last()].drop_first() =~= Seq::<char>::empty());
        assert(encode_utf8(seq![s.last()]) =~= encode_scalar(s.last() as u32) + encode_utf8(Seq::<char>::empty()));
    }
}

pub proof fn lemma_byte_len_append(a: Seq<char>, b: Seq<char>)
    ensures
        byte_len(a + b) == byte_len(a) + byte_len(b),
    decreases b.len(),
{
    if b.len() == 0 {
        assert(a + b =~= a);
    } else {
        lemma_byte_len_append(a, b.drop_last());
        assert((a + b).drop_last() =~= a + b.drop_last());
        assert((a + b).last() == b.last());
    }
}

pub proof fn lemma_byte_len_monotone(s: Seq<char>, i: int, j: int)
    requires
        0 <= i <= j <= s.len(),
    ensures
        byte_len(s.take(i)) <= byte_len(s.take(j)),
        i < j ==> byte_len(s.take(i)) < byte_len(s.take(j)),
    decreases j - i,
{
    if i < j {
        lemma_byte_len_monotone(s, i, j - 1);
        assert(s.take(j).drop_last() =~= s.take(j - 1));
    }
}

/// Byte offsets of distinct character positions differ.
pub proof fn lemma_byte_offset_injective(s: Seq<char>, i: int, j: int)
    requires
        0 <= i <= s.len(),
        0 <= j <= s.len(),
        byte_len(s.take(i)) == byte_len(s.take(j)),
    ensures
        i == j,
{
    if i < j {
        lemma_byte_len_monotone(s, i, j);
    } else if j < i {
        lemma_byte_len_monotone(s, j, i);
    }
}

/// The byte length of `s`, which fits in a `usize`.
pub fn byte_len_exec(s: &str) -> (n: usize)
    ensures
        n == byte_len(s@),
{
    proof {
        lemma_byte_len_encode(s@);
    }
    s.as_bytes().len()
}

// ---------------------------------------------------------------------
// Decimal integers
// ---------------------------------------------------------------------

pub open spec fn is_digit(c: char) -> bool {
    '0' <= c && c <= '9'
}

pub open spec fn digit_value(c: char) -> int {
    (c as int) - ('0' as int)
}

pub open spec fn all_digits(s: Seq<char>) -> bool {
    forall|i: int| 0 <= i < s.len() ==> is_digit(#[trigger] s[i])
}

/// The number written by the decimal digits `s`.
pub open spec fn digits_value(s: Seq<char>) -> int
    decreases s.len(),
{
    if s.len() == 0 {
        0
    } else {
        digits_value(s.drop_last()) * 10 + digit_value(s.last())
    }
}

/// What `str::parse::<i64>` gives: an optional sign, then one or more
/// decimal digits, whose value fits in an `i64`.
pub open spec fn parse_i64(s: Seq<char>) -> Option<i64> {
    let neg = s.len() > 0 && s[0] == '-';
    let body = if s.len() > 0 && (s[0] == '-' || s[0] == '+') {
        s.drop_first()
    } else {
        s
    };
    if body.len() == 0 || !all_digits(body) {
        None
    } else {
        let v = if neg {
            -digits_value(body)
        } else {
            digits_value(body)
        };
        if i64::MIN <= v <= i64::MAX {
            Some(v as i64)
        } else {
            None
        }
    }
}

pub proof fn lemma_digits_value_nonneg(s: Seq<char>)
    requires
        all_digits(s),
    ensures
        digits_value(s) >= 0,
    decreases s.len(),
{
    if s.len() > 0 {
        assert(is_digit(s[s.len() - 1]));
        assert(all_digits(s.drop_last())) by {
            assert forall|i: int| 0 <= i < s.drop_last().len() implies is_digit(#[trigger] s.drop_last()[i]) by {
                assert(s.drop_last()[i] == s[i]);
            }
        }
        lemma_digits_value_nonneg(s.drop_last());
    }
}

/// Adding digits never makes the value smaller.
pub proof fn lemma_digits_value_prefix(s: Seq<char>, i: int)
    requires
        all_digits(s),
        0 <= i <= s.len(),
    ensures
        digits_value(s.take(i)) <= digits_value(s),
    decreases s.len() - i,
{
    if i < s.len() {
        lemma_digits_value_prefix(s, i + 1);
        let t = s.take(i + 1);
        assert(t.drop_last() =~= s.take(i));
        assert(is_digit(s[i]));
        assert(t.last() == s[i]);
        assert(all_digits(s.take(i))) by {
            assert forall|k: int| 0 <= k < s.take(i).len() implies is_digit(#[trigger] s.take(i)[k]) by {
                assert(s.take(i)[k] == s[k]);
            }
        }
        lemma_digits_value_nonneg(s.take(i));
    } else {
        assert(s.take(i) =~= s);
    }
}

/// `str::parse::<i64>`, written out.
pub fn parse_i64_exec(s: &str) -> (r: Option<i64>)
    ensures
        r == parse_i64(s@),
{
    let cs = chars_of(s);
    let n = cs.len();
    if n == 0 {
        return None;
    }
    let neg = cs[0] == '-';
    let start: usize = if cs[0] == '-' || cs[0] == '+' { 1 } else { 0 };
    let ghost body = if cs@[0] == '-' || cs@[0] == '+' { cs@.drop_first() } else { cs@ };
    proof {
        assert(body =~= cs@.subrange(start as int, n as int));
    }
    if start == n {
        return None;
    }
    // magnitude limit: 2^63 for negatives, 2^63 - 1 otherwise
    let limit: u64 = if neg { 9223372036854775808u64 } else { 9223372036854775807u64 };
    let mut acc: u64 = 0;
    let mut i = start;
    while i < n
        invariant
            cs@ == s@,
            n == cs@.len(),
            start <= i <= n,
            body == cs@.subrange(start as int, n as int),
            n > 0,
            body == (if s@[0] == '-' || s@[0] == '+' { s@.drop_first() } else { s@ }),
            neg == (s@[0] == '-'),
            start == (if s@[0] == '-' || s@[0] == '+' { 1usize } else { 0usize }),
            limit == (if neg { 9223372036854775808u64 } else { 9223372036854775807u64 }),
            all_digits(body.take(i - start)),
            acc as int == digits_value(body.take(i - start)),
            acc <= limit,
        decreases n - i,
    {
        let c = cs[i];
        let ghost t = body.take(i - start + 1);
        proof {
            assert(t.drop_last() =~= body.take(i - start));
            assert(t.last() == c);
        }
        if !('0' <= c && c <= '9') {
            proof {
                assert(body[i - start] == c);
            }
            return None;
        }
        let d = (c as u32 - '0' as u32) as u64;
        assert(d <= 9);
        if acc > (limit - d) / 10 {
            proof {
                assert(all_digits(t)) by {
                    assert forall|k: int| 0 <= k < t.len() implies is_digit(#[trigger] t[k]) by {
                        if k < t.len() - 1 {
                            assert(t[k] == body.take(i - start)[k]);
                        }
                    }
                }
                assert(digits_value(t) > limit);
                if all_digits(body) {
                    lemma_digits_value_prefix(body, i - start + 1);
                }
            }
            return None;
        }
        acc = acc * 10 + d;
        proof {
            assert(all_digits(t)) by {
                assert forall|k: int| 0 <= k < t.len() implies is_digit(#[trigger] t[k]) by {
                    if k < t.len() - 1 {
                        assert(t[k] == body.take(i - start)[k]);
                    }
                }
            }
        }
        i = i + 1;
    }
    proof {
        assert(body.take(n - start) =~= body);
    }
    if neg {
        if acc == 9223372036854775808u64 {
            Some(i64::MIN)
        } else {
            Some(-(acc as i64))
        }
    } else {
        Some(acc as i64)
    }
}

pub open spec fn digit_char(d: int) -> char {
    (('0' as int) + d) as char
}

/// Decimal digits of `n`, without leading zeros.
pub open spec fn decimal(n: nat) -> Seq<char>
    decreases n,
{
    if n < 10 {
        seq![digit_char(n as int)]
    } else {
        decimal(n / 10).push(digit_char((n % 10) as int))
    }
}

/// How `i64` displays: a minus sign for negatives, then the digits.
pub open spec fn i64_text(n: i64) -> Seq<char> {
    if n < 0 {
        seq!['-'] + decimal((-(n as int)) as nat)
    } else {
        decimal(n as nat)
    }
}

/// `u64::to_string`, written out.
pub fn u64_to_string(mag: u64) -> (s: String)
    ensures
        s@ == decimal(mag as nat),
{
    // digits, least significant first
    let mut rev: Vec<char> = Vec::new();
    let mut m = mag;
    loop
        invariant
            m <= mag,
            decimal(mag as nat) == decimal(m as nat) + rev@.reverse(),
        ensures
            m < 10,
            decimal(mag as nat) == decimal(m as nat) + rev@.reverse(),
        decreases m,
    {
        if m < 10 {
            break;
        }
        let d = m % 10;
        proof {
            assert(decimal(m as nat) == decimal((m / 10) as nat).push(digit_char(d as int)));
            assert(rev@.push(digit_char(d as int)).reverse() =~= seq![digit_char(d as int)] + rev@.reverse());
            assert(decimal((m / 10) as nat).push(digit_char(d as int)) + rev@.reverse()
                =~= decimal((m / 10) as nat) + (seq![digit_char(d as int)] + rev@.reverse()));
        }
        rev.push(((d as u8) + 48u8) as char);
        m = m / 10;
    }
    proof {
        assert(decimal(m as nat) == seq![digit_char(m as int)]);
    }
    let mut s = String::new();
    push_char(&mut s, ((m as u8) + 48u8) as char);
    let ghost head = s@;
    let mut i = rev.len();
    while i > 0
        invariant
            i <= rev@.len(),
            s@ == head + rev@.reverse().take(rev@.len() - i),
        decreases i,
    {
        i = i - 1;
        push_char(&mut s, rev[i]);
        proof {
            assert(rev@.reverse()[rev@.len() - 1 - i] == rev@[i as int]);
            assert(rev@.reverse().take(rev@.len() - i) =~= rev@.reverse().take(rev@.len() - 1 - i).push(rev@[i as int]));
        }
    }
    proof {
        assert(rev@.reverse().take(rev@.len() as int) =~= rev@.reverse());
        assert(s@ =~= decimal(mag as nat));
    }
    s
}

/// `i64::to_string`, written out.
pub fn i64_to_string(n: i64) -> (s: String)
    ensures
        s@ == i64_text(n),
{
    let mag: u64 = if n < 0 {
        if n == i64::MIN { 9223372036854775808u64 } else { (-n) as u64 }
    } else {
        n as u64
    };
    let digits = u64_to_string(mag);
    if n < 0 {
        let mut s = String::new();
        push_char(&mut s, '-');
        let r = concat_strings(s.as_str(), digits.as_str());
        proof {
            assert(r@ =~= seq!['-'] + decimal(mag as nat));
        }
        r
    } else {
        digits
    }
}

} // verus!
