//! Storage keys: the partition that a conversation name maps to, and the
//! index that a stored record's name carries.

use vstd::prelude::*;
use crate::text::{chars_of, string_of};

verus! {

/// How `c` is written in a partition name: `%`, `/` and `\` are
/// percent-escaped, every other character stands for itself.
pub open spec fn escaped_char(c: char) -> Seq<char> {
    if c == '%' {
        seq!['%', '2', '5']
    } else if c == '/' {
        seq!['%', '2', 'F']
    } else if c == '\\' {
        seq!['%', '5', 'C']
    } else {
        seq![c]
    }
}

/// `s` with each character escaped.
pub open spec fn escaped(s: Seq<char>) -> Seq<char>
    decreases s.len(),
{
    if s.len() == 0 {
        Seq::empty()
    } else {
        escaped_char(s[0]) + escaped(s.skip(1))
    }
}

/// What every partition name starts with, so that none is empty, `.` or `..`.
pub open spec fn partition_prefix() -> Seq<char> {
    seq!['c', '_']
}

/// The partition that conversation `name` is stored under.
pub open spec fn sanitized(name: Seq<char>) -> Seq<char> {
    partition_prefix() + escaped(name)
}

proof fn lemma_escaped_push(s: Seq<char>, c: char)
    ensures
        escaped(s.push(c)) == escaped(s) + escaped_char(c),
    decreases s.len(),
{
    if s.len() == 0 {
        let t = s.push(c);
        assert(t.skip(1) =~= Seq::<char>::empty());
        assert(t[0] == c);
        assert(escaped(t.skip(1)) == Seq::<char>::empty());
        assert(escaped(t) == escaped_char(c) + escaped(t.skip(1)));
        assert(escaped(t) =~= escaped(s) + escaped_char(c));
    } else {
        let t = s.push(c);
        assert(t.skip(1) =~= s.skip(1).push(c));
        lemma_escaped_push(s.skip(1), c);
        assert(t[0] == s[0]);
        assert(escaped(t) == escaped_char(s[0]) + escaped(t.skip(1)));
        assert(escaped(s) == escaped_char(s[0]) + escaped(s.skip(1)));
        assert(escaped(t) =~= escaped(s) + escaped_char(c));
    }
}

proof fn lemma_escaped_injective(a: Seq<char>, b: Seq<char>)
    requires
        escaped(a) == escaped(b),
    ensures
        a == b,
    decreases a.len() + b.len(),
{
    if a.len() == 0 && b.len() == 0 {
        assert(a =~= b);
    } else if a.len() == 0 {
        assert(escaped(b).len() >= 1);
    } else if b.len() == 0 {
        assert(escaped(a).len() >= 1);
    } else {
        let e = escaped(a);
        let ea = escaped_char(a[0]);
        let eb = escaped_char(b[0]);
        assert(e[0] == ea[0]);
        assert(e[0] == eb[0]);
        if ea.len() == 3 {
            assert(e[1] == ea[1] && e[2] == ea[2]);
            assert(e[1] == eb[1] && e[2] == eb[2]);
        }
        assert(a[0] == b[0]);
        assert(escaped(a.skip(1)) =~= e.skip(ea.len() as int));
        assert(escaped(b.skip(1)) =~= e.skip(ea.len() as int));
        lemma_escaped_injective(a.skip(1), b.skip(1));
        assert(a =~= seq![a[0]] + a.skip(1));
        assert(b =~= seq![b[0]] + b.skip(1));
    }
}

proof fn lemma_escaped_has_no_separator(s: Seq<char>)
    ensures
        forall|i: int| 0 <= i < escaped(s).len() ==> #[trigger] escaped(s)[i] != '/' && escaped(s)[i] != '\\',
    decreases s.len(),
{
    if s.len() > 0 {
        lemma_escaped_has_no_separator(s.skip(1));
        let e = escaped(s);
        let h = escaped_char(s[0]);
        assert forall|i: int| 0 <= i < e.len() implies #[trigger] e[i] != '/' && e[i] != '\\' by {
            if i >= h.len() {
                assert(e[i] == escaped(s.skip(1))[i - h.len()]);
            }
        }
    }
}

/// Distinct conversation names get distinct partitions: a partition holds
/// the records of one conversation only.
pub proof fn lemma_partition_names_one_conversation(a: Seq<char>, b: Seq<char>)
    requires
        sanitized(a) == sanitized(b),
    ensures
        a == b,
{
    assert(escaped(a) =~= sanitized(a).skip(2));
    assert(escaped(b) =~= sanitized(b).skip(2));
    lemma_escaped_injective(a, b);
}

/// A partition name is safe as a single path component: it holds no path
/// separator and is neither empty, `.` nor `..`.
pub proof fn lemma_partition_name_is_safe(name: Seq<char>)
    ensures
        sanitized(name).len() >= 2,
        sanitized(name)[0] == 'c',
        forall|i: int| 0 <= i < sanitized(name).len() ==> #[trigger] sanitized(name)[i] != '/'
            && sanitized(name)[i] != '\\',
{
    lemma_escaped_has_no_separator(name);
    let t = sanitized(name);
    assert forall|i: int| 0 <= i < t.len() implies #[trigger] t[i] != '/' && t[i] != '\\' by {
        if i >= 2 {
            assert(t[i] == escaped(name)[i - 2]);
        }
    }
}

/// Maps a conversation name to its storage partition, the same on every path.
pub fn partition_key(name: &str) -> (r: String)
    ensures
        r@ == sanitized(name@),
{
    let v = chars_of(name);
    let mut out: Vec<char> = Vec::new();
    out.push('c');
    out.push('_');
    let mut i: usize = 0;
    assert(v@.take(0) =~= Seq::<char>::empty());
    assert(out@ =~= partition_prefix() + escaped(v@.take(0)));
    while i < v.len()
        invariant
            i <= v@.len(),
            v@ == name@,
            out@ == partition_prefix() + escaped(v@.take(i as int)),
        decreases v.len() - i,
    {
        let c = v[i];
        if c == '%' {
            out.push('%');
            out.push('2');
            out.push('5');
        } else if c == '/' {
            out.push('%');
            out.push('2');
            out.push('F');
        } else if c == '\\' {
            out.push('%');
            out.push('5');
            out.push('C');
        } else {
            out.push(c);
        }
        proof {
            assert(v@.take(i + 1) =~= v@.take(i as int).push(c));
            lemma_escaped_push(v@.take(i as int), c);
            assert(out@ =~= partition_prefix() + escaped(v@.take(i + 1)));
        }
        i = i + 1;
    }
    assert(v@.take(v@.len() as int) =~= v@);
    string_of(&out, 0, out.len())
}

/// The value of a digit character.
pub open spec fn digit_value(c: char) -> nat {
    (c as u32 - '0' as u32) as nat
}

pub open spec fn is_digit(c: char) -> bool {
    '0' <= c && c <= '9'
}

/// The number that the decimal digits `s` write.
pub open spec fn decimal_value(s: Seq<char>) -> nat
    decreases s.len(),
{
    if s.len() == 0 {
        0
    } else {
        decimal_value(s.drop_last()) * 10 + digit_value(s.last())
    }
}

/// `s` without a leading `+`.
pub open spec fn unsigned_digits(s: Seq<char>) -> Seq<char> {
    if s.len() > 0 && s[0] == '+' {
        s.skip(1)
    } else {
        s
    }
}

pub open spec fn all_digits(s: Seq<char>) -> bool {
    forall|i: int| 0 <= i < s.len() ==> is_digit(#[trigger] s[i])
}

/// The number that `s` writes as `usize::from_str` reads it: an optional `+`,
/// then one or more decimal digits, with a value that fits in `usize`.
pub open spec fn parsed_index(s: Seq<char>) -> Option<usize> {
    let digits = unsigned_digits(s);
    if digits.len() > 0 && all_digits(digits) && decimal_value(digits) <= usize::MAX {
        Some(decimal_value(digits) as usize)
    } else {
        None
    }
}

/// The suffix of a stored record's name.
pub open spec fn record_suffix() -> Seq<char> {
    seq!['.', 'j', 's', 'o', 'n']
}

/// The chunk index that a record named `name` holds: its name is the index
/// followed by `.json`.
pub open spec fn record_index(name: Seq<char>) -> Option<usize> {
    if name.len() >= 5 && name.skip(name.len() - 5) == record_suffix() {
        parsed_index(name.take(name.len() - 5))
    } else {
        None
    }
}

proof fn lemma_decimal_grows(s: Seq<char>, k: int)
    requires
        0 <= k <= s.len(),
    ensures
        decimal_value(s.take(k)) <= decimal_value(s),
    decreases s.len(),
{
    if k < s.len() {
        assert(s.drop_last().take(k) =~= s.take(k));
        lemma_decimal_grows(s.drop_last(), k);
    } else {
        assert(s.take(k) =~= s);
    }
}

/// Reads `v[lo..hi]` as an index the way `usize::from_str` does.
fn parse_index(v: &Vec<char>, lo: usize, hi: usize) -> (r: Option<usize>)
    requires
        lo <= hi <= v@.len(),
    ensures
        r == parsed_index(v@.subrange(lo as int, hi as int)),
{
    let ghost s = v@.subrange(lo as int, hi as int);
    let mut i: usize = lo;
    if lo < hi && v[lo] == '+' {
        i = lo + 1;
    }
    let ghost digits = v@.subrange(i as int, hi as int);
    assert(digits =~= unsigned_digits(s));
    if i == hi {
        return None;
    }
    let start = i;
    let mut acc: usize = 0;
    while i < hi
        invariant
            start <= i <= hi <= v@.len(),
            digits == v@.subrange(start as int, hi as int),
            s == v@.subrange(lo as int, hi as int),
            digits == unsigned_digits(s),
            forall|j: int| start <= j < i ==> is_digit(#[trigger] v@[j]),
            acc == decimal_value(v@.subrange(start as int, i as int)),
        decreases hi - i,
    {
        let c = v[i];
        let ghost pre = v@.subrange(start as int, i + 1);
        assert(pre.drop_last() =~= v@.subrange(start as int, i as int));
        if !('0' <= c && c <= '9') {
            assert(digits[i - start] == c);
            assert(!is_digit(digits[i - start]));
            assert(!all_digits(digits));
            return None;
        }
        let d = (c as u32 - '0' as u32) as usize;
        assert(decimal_value(pre) == acc * 10 + d);
        if acc > (usize::MAX - d) / 10 {
            proof {
                assert(acc * 10 + d > usize::MAX) by (nonlinear_arith)
                    requires
                        acc > (usize::MAX - d) / 10,
                        d <= 9,
                ;
                assert(pre =~= digits.take(i + 1 - start));
                lemma_decimal_grows(digits, i + 1 - start);
            }
            return None;
        }
        proof {
            assert(acc * 10 + d <= usize::MAX) by (nonlinear_arith)
                requires
                    acc <= (usize::MAX - d) / 10,
                    d <= 9,
            ;
        }
        acc = acc * 10 + d;
        i = i + 1;
    }
    assert forall|j: int| 0 <= j < digits.len() implies is_digit(#[trigger] digits[j]) by {
        assert(digits[j] == v@[start + j]);
    }
    assert(v@.subrange(start as int, i as int) == digits);
    Some(acc)
}

/// The chunk index that a stored record's name carries, if it is one.
pub fn record_name_index(name: &str) -> (r: Option<usize>)
    ensures
        r == record_index(name@),
{
    let v = chars_of(name);
    let n = v.len();
    if n < 5 {
        return None;
    }
    let is_record = v[n - 5] == '.' && v[n - 4] == 'j' && v[n - 3] == 's' && v[n - 2] == 'o'
        && v[n - 1] == 'n';
    assert(is_record == (name@.skip(n - 5) =~= record_suffix()));
    if !is_record {
        return None;
    }
    assert(name@.take(n - 5) =~= v@.subrange(0, n - 5));
    parse_index(&v, 0, n - 5)
}

} // verus!
