//! Splitting and joining of character sequences, the string model that the
//! address rewriter and the configuration parser are specified against.

use vstd::prelude::*;

verus! {

/// Index of the first occurrence of `sep` in `s`, or `-1` if `s` holds none.
pub open spec fn index_of(s: Seq<char>, sep: char) -> int
    decreases s.len(),
{
    if s.len() == 0 {
        -1
    } else if s[0] == sep {
        0
    } else {
        let r = index_of(s.drop_first(), sep);
        if r < 0 {
            -1
        } else {
            r + 1
        }
    }
}

pub proof fn lemma_index_of(s: Seq<char>, sep: char)
    ensures
        index_of(s, sep) >= 0 ==> index_of(s, sep) < s.len() && s[index_of(s, sep)] == sep,
        index_of(s, sep) >= 0 ==> forall|j: int| 0 <= j < index_of(s, sep) ==> s[j] != sep,
        index_of(s, sep) < 0 ==> forall|j: int| 0 <= j < s.len() ==> s[j] != sep,
    decreases s.len(),
{
    if s.len() == 0 {
    } else if s[0] == sep {
    } else {
        lemma_index_of(s.drop_first(), sep);
        if index_of(s, sep) < 0 {
            assert forall|j: int| 0 <= j < s.len() implies s[j] != sep by {
                if j > 0 {
                    assert(s.drop_first()[j - 1] != sep);
                }
            }
        } else {
            assert forall|j: int| 0 <= j < index_of(s, sep) implies s[j] != sep by {
                if j > 0 {
                    assert(s.drop_first()[j - 1] != sep);
                }
            }
        }
    }
}

/// The parts of `s` between occurrences of `sep`; always at least one part.
pub open spec fn split(s: Seq<char>, sep: char) -> Seq<Seq<char>>
    decreases s.len(),
{
    let i = index_of(s, sep);
    if 0 <= i < s.len() {
        seq![s.take(i)] + split(s.skip(i + 1), sep)
    } else {
        seq![s]
    }
}

/// A sequence without the separator splits into itself alone.
pub proof fn lemma_split_none(s: Seq<char>, sep: char)
    requires
        forall|j: int| 0 <= j < s.len() ==> s[j] != sep,
    ensures
        split(s, sep) == seq![s],
{
    lemma_index_of(s, sep);
    if index_of(s, sep) >= 0 {
        assert(false);
    }
}

/// Splitting steps over the first separator: everything before it is the
/// first part, and the rest splits on its own.
pub proof fn lemma_split_step(s: Seq<char>, sep: char, i: int)
    requires
        0 <= i < s.len(),
        s[i] == sep,
        forall|j: int| 0 <= j < i ==> s[j] != sep,
    ensures
        split(s, sep) == seq![s.take(i)] + split(s.skip(i + 1), sep),
{
    lemma_index_of(s, sep);
    let r = index_of(s, sep);
    if r < 0 {
        assert(s[i] != sep);
        assert(false);
    }
    if r < i {
        assert(s[r] != sep);
        assert(false);
    }
    if r > i {
        assert(s[i] != sep);
        assert(false);
    }
}

/// The parts joined back with `sep` between them.
pub open spec fn join(parts: Seq<Seq<char>>, sep: char) -> Seq<char>
    decreases parts.len(),
{
    if parts.len() == 0 {
        Seq::empty()
    } else if parts.len() == 1 {
        parts[0]
    } else {
        parts[0] + seq![sep] + join(parts.drop_first(), sep)
    }
}

/// Joining one more part appends a separator and the part.
pub proof fn lemma_join_push(parts: Seq<Seq<char>>, sep: char, p: Seq<char>)
    requires
        parts.len() >= 1,
    ensures
        join(parts.push(p), sep) == join(parts, sep) + seq![sep] + p,
    decreases parts.len(),
{
    let q = parts.push(p);
    if parts.len() == 1 {
        assert(q.drop_first() =~= seq![p]);
        assert(join(q.drop_first(), sep) == p);
        assert(join(q, sep) == q[0] + seq![sep] + p);
        assert(join(parts, sep) == parts[0]);
    } else {
        lemma_join_push(parts.drop_first(), sep, p);
        assert(q.drop_first() =~= parts.drop_first().push(p));
        assert(join(q, sep) == q[0] + seq![sep] + join(parts.drop_first().push(p), sep));
        assert(join(q, sep) =~= parts[0] + seq![sep] + (join(parts.drop_first(), sep) + seq![sep]
            + p));
        assert(join(parts, sep) + seq![sep] + p =~= parts[0] + seq![sep] + (join(
            parts.drop_first(),
            sep,
        ) + seq![sep] + p));
    }
}

/// Splits `s` at every occurrence of `sep`; the result holds at least one
/// element, and empty parts are kept, as `str::split` keeps them.
pub fn split_str(s: &str, sep: char) -> (parts: Vec<String>)
    ensures
        parts.deep_view() == split(s@, sep),
        parts.len() >= 1,
{
    let n = s.unicode_len();
    let mut parts: Vec<String> = Vec::new();
    let mut start: usize = 0;
    let mut i: usize = 0;
    proof {
        assert(s@.skip(0) =~= s@);
        assert(parts.deep_view() =~= Seq::<Seq<char>>::empty());
        assert(parts.deep_view() + split(s@, sep) =~= split(s@, sep));
    }
    while i < n
        invariant
            start <= i <= n == s@.len(),
            parts.deep_view() + split(s@.skip(start as int), sep) == split(s@, sep),
            forall|j: int| start <= j < i ==> s@[j] != sep,
        decreases n - i,
    {
        if s.get_char(i) == sep {
            let part = s.substring_char(start, i);
            let ghost old_parts = parts.deep_view();
            parts.push(part.to_owned());
            proof {
                let tail = s@.skip(start as int);
                lemma_split_step(tail, sep, i - start);
                assert(tail.take(i - start) =~= part@);
                assert(tail.skip(i - start + 1) =~= s@.skip(i + 1));
                assert(split(tail, sep) == seq![part@] + split(s@.skip(i + 1), sep));
                assert(parts.deep_view() =~= old_parts.push(part@));
                assert(parts.deep_view() + split(s@.skip(i + 1), sep) =~= old_parts + split(
                    tail,
                    sep,
                ));
            }
            start = i + 1;
        }
        i += 1;
    }
    let part = s.substring_char(start, n);
    let ghost old_parts = parts.deep_view();
    parts.push(part.to_owned());
    proof {
        let tail = s@.skip(start as int);
        assert forall|j: int| 0 <= j < tail.len() implies tail[j] != sep by {
            assert(s@[start + j] != sep);
        }
        lemma_split_none(tail, sep);
        assert(part@ =~= tail);
        assert(parts.deep_view() =~= old_parts.push(part@));
        assert(parts.deep_view() =~= old_parts + split(tail, sep));
    }
    parts
}

/// Index of the first position where `sep` occurs twice in a row, or `-1`.
pub open spec fn index_of_pair(s: Seq<char>, sep: char) -> int
    decreases s.len(),
{
    if s.len() < 2 {
        -1
    } else if s[0] == sep && s[1] == sep {
        0
    } else {
        let r = index_of_pair(s.drop_first(), sep);
        if r < 0 {
            -1
        } else {
            r + 1
        }
    }
}

pub proof fn lemma_index_of_pair(s: Seq<char>, sep: char)
    ensures
        index_of_pair(s, sep) >= 0 ==> index_of_pair(s, sep) + 2 <= s.len() && s[index_of_pair(
            s,
            sep,
        )] == sep && s[index_of_pair(s, sep) + 1] == sep,
        index_of_pair(s, sep) >= 0 ==> forall|j: int|
            0 <= j < index_of_pair(s, sep) ==> !(#[trigger] s[j] == sep && s[j + 1] == sep),
        index_of_pair(s, sep) < 0 ==> forall|j: int|
            0 <= j < s.len() - 1 ==> !(#[trigger] s[j] == sep && s[j + 1] == sep),
    decreases s.len(),
{
    if s.len() < 2 {
    } else if s[0] == sep && s[1] == sep {
    } else {
        lemma_index_of_pair(s.drop_first(), sep);
        if index_of_pair(s, sep) < 0 {
            assert forall|j: int| 0 <= j < s.len() - 1 implies !(#[trigger] s[j] == sep && s[j
                + 1] == sep) by {
                if j > 0 {
                    assert(!(s.drop_first()[j - 1] == sep && s.drop_first()[j] == sep));
                }
            }
        } else {
            assert forall|j: int| 0 <= j < index_of_pair(s, sep) implies !(#[trigger] s[j] == sep
                && s[j + 1] == sep) by {
                if j > 0 {
                    assert(!(s.drop_first()[j - 1] == sep && s.drop_first()[j] == sep));
                }
            }
        }
    }
}

/// The parts of `s` between non-overlapping, leftmost-first occurrences of
/// the doubled separator, as `str::split` with a two-character pattern.
pub open spec fn split_pair(s: Seq<char>, sep: char) -> Seq<Seq<char>>
    decreases s.len(),
{
    let i = index_of_pair(s, sep);
    if 0 <= i && i + 2 <= s.len() {
        seq![s.take(i)] + split_pair(s.skip(i + 2), sep)
    } else {
        seq![s]
    }
}

pub proof fn lemma_split_pair_none(s: Seq<char>, sep: char)
    requires
        forall|j: int| 0 <= j < s.len() - 1 ==> !(#[trigger] s[j] == sep && s[j + 1] == sep),
    ensures
        split_pair(s, sep) == seq![s],
{
    lemma_index_of_pair(s, sep);
    if index_of_pair(s, sep) >= 0 {
        assert(false);
    }
}

pub proof fn lemma_split_pair_step(s: Seq<char>, sep: char, i: int)
    requires
        0 <= i,
        i + 2 <= s.len(),
        s[i] == sep,
        s[i + 1] == sep,
        forall|j: int| 0 <= j < i ==> !(#[trigger] s[j] == sep && s[j + 1] == sep),
    ensures
        split_pair(s, sep) == seq![s.take(i)] + split_pair(s.skip(i + 2), sep),
{
    lemma_index_of_pair(s, sep);
    let r = index_of_pair(s, sep);
    if r < 0 {
        assert(!(s[i] == sep && s[i + 1] == sep));
        assert(false);
    }
    if r < i {
        assert(!(s[r] == sep && s[r + 1] == sep));
        assert(false);
    }
    if r > i {
        assert(!(s[i] == sep && s[i + 1] == sep));
        assert(false);
    }
}

/// The doubled separator begins somewhere in `s` exactly when splitting on
/// it yields more than one part.
pub proof fn lemma_split_pair_contains(s: Seq<char>, sep: char)
    ensures
        split_pair(s, sep).len() >= 2 <==> index_of_pair(s, sep) >= 0,
{
    lemma_index_of_pair(s, sep);
    let i = index_of_pair(s, sep);
    if 0 <= i && i + 2 <= s.len() {
        lemma_split_pair_len(s.skip(i + 2), sep);
    }
}

pub proof fn lemma_split_pair_len(s: Seq<char>, sep: char)
    ensures
        split_pair(s, sep).len() >= 1,
    decreases s.len(),
{
    let i = index_of_pair(s, sep);
    if 0 <= i && i + 2 <= s.len() {
        lemma_split_pair_len(s.skip(i + 2), sep);
    }
}

/// Splits `s` at every non-overlapping occurrence of `sep` doubled, leftmost
/// first, as `str::split` does with a two-character pattern.
pub fn split_pair_str(s: &str, sep: char) -> (parts: Vec<String>)
    ensures
        parts.deep_view() == split_pair(s@, sep),
        parts.len() >= 1,
{
    let n = s.unicode_len();
    let mut parts: Vec<String> = Vec::new();
    let mut start: usize = 0;
    let mut i: usize = 0;
    proof {
        assert(s@.skip(0) =~= s@);
        assert(parts.deep_view() =~= Seq::<Seq<char>>::empty());
        assert(parts.deep_view() + split_pair(s@, sep) =~= split_pair(s@, sep));
    }
    while i < n && i + 1 < n
        invariant
            start <= i,
            i <= n == s@.len(),
            parts.deep_view() + split_pair(s@.skip(start as int), sep) == split_pair(s@, sep),
            forall|j: int| start <= j < i ==> !(#[trigger] s@[j] == sep && s@[j + 1] == sep),
        decreases n - i,
    {
        if s.get_char(i) == sep && s.get_char(i + 1) == sep {
            let part = s.substring_char(start, i);
            let ghost old_parts = parts.deep_view();
            parts.push(part.to_owned());
            proof {
                let tail = s@.skip(start as int);
                assert forall|j: int| 0 <= j < i - start implies !(#[trigger] tail[j] == sep
                    && tail[j + 1] == sep) by {
                    assert(!(s@[start + j] == sep && s@[start + j + 1] == sep));
                }
                lemma_split_pair_step(tail, sep, i - start);
                assert(tail.take(i - start) =~= part@);
                assert(tail.skip(i - start + 2) =~= s@.skip(i + 2));
                assert(split_pair(tail, sep) == seq![part@] + split_pair(s@.skip(i + 2), sep));
                assert(parts.deep_view() =~= old_parts.push(part@));
                assert(parts.deep_view() + split_pair(s@.skip(i + 2), sep) =~= old_parts
                    + split_pair(tail, sep));
            }
            start = i + 2;
            i += 2;
        } else {
            i += 1;
        }
    }
    let part = s.substring_char(start, n);
    let ghost old_parts = parts.deep_view();
    parts.push(part.to_owned());
    proof {
        let tail = s@.skip(start as int);
        assert forall|j: int| 0 <= j < tail.len() - 1 implies !(#[trigger] tail[j] == sep
            && tail[j + 1] == sep) by {
            assert(!(s@[start + j] == sep && s@[start + j + 1] == sep));
        }
        lemma_split_pair_none(tail, sep);
        assert(part@ =~= tail);
        assert(parts.deep_view() =~= old_parts.push(part@));
        assert(parts.deep_view() =~= old_parts + split_pair(tail, sep));
    }
    parts
}

/// Joins the parts with the single character of `sep` between them.
pub fn join_strs(parts: &Vec<String>, sep: &str) -> (r: String)
    requires
        parts.len() >= 1,
        sep@.len() == 1,
    ensures
        r@ == join(parts.deep_view(), sep@[0]),
{
    let mut r: String = parts[0].clone();
    let mut i: usize = 1;
    while i < parts.len()
        invariant
            1 <= i <= parts.len(),
            sep@.len() == 1,
            r@ == join(parts.deep_view().take(i as int), sep@[0]),
        decreases parts.len() - i,
    {
        let ghost done = parts.deep_view().take(i as int);
        r.append(sep);
        r.append(parts[i].as_str());
        proof {
            lemma_join_push(done, sep@[0], parts.deep_view()[i as int]);
            assert(done.push(parts.deep_view()[i as int]) =~= parts.deep_view().take(i + 1));
            assert(sep@ =~= seq![sep@[0]]);
        }
        i += 1;
    }
    proof {
        assert(parts.deep_view().take(parts.len() as int) =~= parts.deep_view());
    }
    r
}

/// Position of the first `sep` in `s`, if `s` holds one.
pub fn find_char(s: &str, sep: char) -> (r: Option<usize>)
    ensures
        match r {
            Some(i) => index_of(s@, sep) == i,
            None => index_of(s@, sep) < 0,
        },
{
    let n = s.unicode_len();
    let mut i: usize = 0;
    while i < n
        invariant
            i <= n == s@.len(),
            forall|j: int| 0 <= j < i ==> s@[j] != sep,
        decreases n - i,
    {
        if s.get_char(i) == sep {
            proof {
                lemma_index_of(s@, sep);
                if index_of(s@, sep) < 0 {
                    assert(s@[i as int] != sep);
                }
                if index_of(s@, sep) < i {
                    assert(s@[index_of(s@, sep)] != sep);
                }
                if index_of(s@, sep) > i {
                    assert(s@[i as int] != sep);
                }
            }
            return Some(i);
        }
        i += 1;
    }
    proof {
        lemma_index_of(s@, sep);
        if index_of(s@, sep) >= 0 {
            assert(s@[index_of(s@, sep)] != sep);
        }
    }
    None
}

/// The ASCII whitespace that trimming strips from the ends of a line;
/// Unicode-only spaces are left in place.
pub open spec fn is_space(c: char) -> bool {
    c == ' ' || c == '\t' || c == '\r' || c == '\n' || c == '\u{b}' || c == '\u{c}'
}

pub open spec fn trim_start(s: Seq<char>) -> Seq<char>
    decreases s.len(),
{
    if s.len() > 0 && is_space(s[0]) {
        trim_start(s.drop_first())
    } else {
        s
    }
}

pub open spec fn trim_end(s: Seq<char>) -> Seq<char>
    decreases s.len(),
{
    if s.len() > 0 && is_space(s.last()) {
        trim_end(s.drop_last())
    } else {
        s
    }
}

/// `s` without leading and trailing ASCII whitespace.
pub open spec fn spec_trim(s: Seq<char>) -> Seq<char> {
    trim_end(trim_start(s))
}

proof fn lemma_trim_start_skip(s: Seq<char>, a: int)
    requires
        0 <= a <= s.len(),
        forall|j: int| 0 <= j < a ==> is_space(#[trigger] s[j]),
        a < s.len() ==> !is_space(s[a]),
    ensures
        trim_start(s) == s.skip(a),
    decreases a,
{
    if a == 0 {
        assert(s.skip(0) =~= s);
    } else {
        let t = s.drop_first();
        assert forall|j: int| 0 <= j < a - 1 implies is_space(#[trigger] t[j]) by {
            assert(t[j] == s[j + 1]);
        }
        lemma_trim_start_skip(t, a - 1);
        assert(t.skip(a - 1) =~= s.skip(a));
    }
}

proof fn lemma_trim_end_take(s: Seq<char>, b: int)
    requires
        0 <= b <= s.len(),
        forall|j: int| b <= j < s.len() ==> is_space(#[trigger] s[j]),
        b > 0 ==> !is_space(s[b - 1]),
    ensures
        trim_end(s) == s.take(b),
    decreases s.len() - b,
{
    if b == s.len() {
        assert(s.take(b) =~= s);
    } else {
        let t = s.drop_last();
        assert forall|j: int| b <= j < t.len() implies is_space(#[trigger] t[j]) by {
            assert(t[j] == s[j]);
        }
        lemma_trim_end_take(t, b);
        assert(t.take(b) =~= s.take(b));
    }
}

/// `s` with leading and trailing ASCII whitespace removed.
pub fn trim_str(s: &str) -> (r: String)
    ensures
        r@ == spec_trim(s@),
{
    let n = s.unicode_len();
    let mut a: usize = 0;
    while a < n && is_space_char(s.get_char(a))
        invariant
            a <= n == s@.len(),
            forall|j: int| 0 <= j < a ==> is_space(#[trigger] s@[j]),
        decreases n - a,
    {
        a += 1;
    }
    let mut b: usize = n;
    while b > a && is_space_char(s.get_char(b - 1))
        invariant
            a <= b <= n == s@.len(),
            forall|j: int| b <= j < n ==> is_space(#[trigger] s@[j]),
        decreases b,
    {
        b -= 1;
    }
    proof {
        lemma_trim_start_skip(s@, a as int);
        let t = s@.skip(a as int);
        assert forall|j: int| b - a <= j < t.len() implies is_space(#[trigger] t[j]) by {
            assert(t[j] == s@[j + a]);
        }
        if b > a {
            assert(t[b - a - 1] == s@[b - 1]);
        }
        lemma_trim_end_take(t, b - a);
        assert(t.take(b - a) =~= s@.subrange(a as int, b as int));
    }
    s.substring_char(a, b).to_owned()
}

/// Whether `c` is one of the characters trimming strips.
pub fn is_space_char(c: char) -> (r: bool)
    ensures
        r == is_space(c),
{
    c == ' ' || c == '\t' || c == '\r' || c == '\n' || c == '\u{b}' || c == '\u{c}'
}

/// A decimal digit.
pub open spec fn spec_is_digit(c: char) -> bool {
    48 <= c as u32 <= 57
}

/// The numeric value of one digit.
pub open spec fn digit_val(c: char) -> int {
    c as u32 - 48
}

/// The value of a digit string, most significant digit first.
pub open spec fn digits_val(s: Seq<char>) -> int
    decreases s.len(),
{
    if s.len() == 0 {
        0
    } else {
        digits_val(s.drop_last()) * 10 + digit_val(s.last())
    }
}

pub open spec fn all_digits(s: Seq<char>) -> bool {
    forall|i: int| 0 <= i < s.len() ==> spec_is_digit(#[trigger] s[i])
}

/// What `str::parse::<u64>` accepts: an optional leading plus sign, then at
/// least one digit and nothing else, valuing no more than the type holds.
pub open spec fn spec_parse_u64(s: Seq<char>) -> Option<u64> {
    let digits = if s.len() >= 1 && s[0] == '+' {
        s.drop_first()
    } else {
        s
    };
    if digits.len() == 0 || !all_digits(digits) {
        None
    } else if digits_val(digits) > u64::MAX {
        None
    } else {
        Some(digits_val(digits) as u64)
    }
}

proof fn lemma_digits_val_nonneg(s: Seq<char>)
    requires
        all_digits(s),
    ensures
        digits_val(s) >= 0,
    decreases s.len(),
{
    if s.len() > 0 {
        assert(all_digits(s.drop_last()));
        lemma_digits_val_nonneg(s.drop_last());
    }
}

proof fn lemma_digits_val_prefix_le(s: Seq<char>, k: int)
    requires
        all_digits(s),
        0 <= k <= s.len(),
    ensures
        digits_val(s.take(k)) <= digits_val(s),
    decreases s.len(),
{
    if k == s.len() {
        assert(s.take(k) =~= s);
    } else {
        let t = s.drop_last();
        assert(all_digits(t));
        assert(s.take(k) =~= t.take(k));
        lemma_digits_val_prefix_le(t, k);
        lemma_digits_val_nonneg(t);
        assert(digits_val(s) == digits_val(t) * 10 + digit_val(s.last()));
    }
}

/// Reads a decimal `u64`, exactly as `str::parse::<u64>` would.
pub fn parse_u64(s: &str) -> (r: Option<u64>)
    ensures
        r == spec_parse_u64(s@),
{
    let n = s.unicode_len();
    let mut start: usize = 0;
    if n > 0 && s.get_char(0) == '+' {
        start = 1;
    }
    let ghost digits = if s@.len() >= 1 && s@[0] == '+' {
        s@.drop_first()
    } else {
        s@
    };
    proof {
        assert(digits =~= s@.skip(start as int));
    }
    if start == n {
        return None;
    }
    let mut acc: u64 = 0;
    let mut i: usize = start;
    proof {
        assert(s@.subrange(start as int, start as int) =~= Seq::<char>::empty());
    }
    while i < n
        invariant
            start <= i <= n == s@.len(),
            digits == s@.skip(start as int),
            digits == (if s@.len() >= 1 && s@[0] == '+' {
                s@.drop_first()
            } else {
                s@
            }),
            forall|j: int| start <= j < i ==> spec_is_digit(#[trigger] s@[j]),
            acc == digits_val(s@.subrange(start as int, i as int)),
        decreases n - i,
    {
        let c = s.get_char(i);
        let d = c as u32;
        if d < 48 || d > 57 {
            proof {
                assert(digits[i - start] == s@[i as int]);
                assert(!all_digits(digits));
            }
            return None;
        }
        let ghost pre = s@.subrange(start as int, i as int);
        let ghost post = s@.subrange(start as int, i + 1);
        proof {
            assert(post.drop_last() =~= pre);
            assert(post.last() == s@[i as int]);
            assert(digits_val(post) == digits_val(pre) * 10 + digit_val(s@[i as int]));
        }
        let acc10 = match acc.checked_mul(10) {
            Some(v) => v,
            None => {
                proof {
                    lemma_overflow_means_none(digits, s@, start as int, i as int);
                }
                return None;
            },
        };
        let acc2 = match acc10.checked_add((d - 48) as u64) {
            Some(v) => v,
            None => {
                proof {
                    lemma_overflow_means_none(digits, s@, start as int, i as int);
                }
                return None;
            },
        };
        acc = acc2;
        i += 1;
    }
    proof {
        assert(s@.subrange(start as int, n as int) =~= digits);
        assert(all_digits(digits)) by {
            assert forall|j: int| 0 <= j < digits.len() implies spec_is_digit(
                #[trigger] digits[j],
            ) by {
                assert(digits[j] == s@[start + j]);
            }
        }
        lemma_digits_val_nonneg(digits);
    }
    Some(acc)
}

/// If one more digit overflows the accumulator, the whole string parses to
/// nothing: either a later character is no digit, or the value is too big.
proof fn lemma_overflow_means_none(digits: Seq<char>, s: Seq<char>, start: int, i: int)
    requires
        0 <= start <= i < s.len(),
        digits == s.skip(start),
        forall|j: int| start <= j < i ==> spec_is_digit(#[trigger] s[j]),
        spec_is_digit(s[i]),
        digits_val(s.subrange(start, i)) * 10 + digit_val(s[i]) > u64::MAX,
    ensures
        all_digits(digits) ==> digits_val(digits) > u64::MAX,
{
    if all_digits(digits) {
        assert(digits.take(i + 1 - start) =~= s.subrange(start, i + 1));
        assert(s.subrange(start, i + 1).drop_last() =~= s.subrange(start, i));
        assert(s.subrange(start, i + 1).last() == s[i]);
        assert(digits_val(s.subrange(start, i + 1)) == digits_val(s.subrange(start, i)) * 10
            + digit_val(s[i]));
        lemma_digits_val_prefix_le(digits, i + 1 - start);
    }
}

} // verus!
