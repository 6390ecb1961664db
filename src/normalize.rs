//! Turns the raw completion text of the analysis service into a structured
//! value, tolerating code fences and a stray language label.

use vstd::prelude::*;
use crate::text::{is_space, trim, trim_start, skip_leading_space, skip_trailing_space, chars_of, string_of};
use crate::json::{parsed_json, string_json, parse_json, string_value};

verus! {

/// A code-fence marker.
pub open spec fn fence() -> Seq<char> {
    seq!['`', '`', '`']
}

/// `t` without an opening and a closing fence marker, when it has both.
pub open spec fn unfenced(t: Seq<char>) -> Seq<char> {
    if t.len() >= 6 && t.take(3) == fence() && t.skip(t.len() - 3) == fence() {
        t.subrange(3, t.len() - 3)
    } else {
        t
    }
}

/// Whether `c` can continue a word: an ASCII letter, digit or `_`.
pub open spec fn is_word_char(c: char) -> bool {
    ('a' <= c && c <= 'z') || ('A' <= c && c <= 'Z') || ('0' <= c && c <= '9') || c == '_'
}

/// Whether `s` starts with the bare language label `json`, in any letter
/// case: the word is not followed by another word character.
pub open spec fn has_label(s: Seq<char>) -> bool {
    &&& s.len() >= 4
    &&& (s.len() == 4 || !is_word_char(s[4]))
    &&& (s[0] == 'j' || s[0] == 'J')
    &&& (s[1] == 's' || s[1] == 'S')
    &&& (s[2] == 'o' || s[2] == 'O')
    &&& (s[3] == 'n' || s[3] == 'N')
}

/// `s` without a leading language label and the whitespace after it.
pub open spec fn unlabelled(s: Seq<char>) -> Seq<char> {
    if has_label(s) {
        trim_start(s.skip(4))
    } else {
        s
    }
}

/// The text of a raw completion once fences, surrounding whitespace and a
/// language label are taken off.
pub open spec fn cleaned(raw: Seq<char>) -> Seq<char> {
    unlabelled(trim(unfenced(trim(raw))))
}

/// The value that a completion normalizes to: the parsed JSON of its cleaned
/// text, or that text as a JSON string when it does not parse.
pub open spec fn normalized(raw: Seq<char>) -> serde_json::Value {
    settled(parsed_json(cleaned(raw)), cleaned(raw))
}

/// The parsed value when there is one, else `text` as a JSON string.
pub open spec fn settled(parsed: Option<serde_json::Value>, text: Seq<char>) -> serde_json::Value {
    match parsed {
        Some(v) => v,
        None => string_json(text),
    }
}

fn fence_at(v: &Vec<char>, i: usize) -> (r: bool)
    requires
        i + 3 <= v.len(),
    ensures
        r == (v@.subrange(i as int, i + 3) == fence()),
{
    let r = v[i] == '`' && v[i + 1] == '`' && v[i + 2] == '`';
    assert(r == (v@.subrange(i as int, i + 3) =~= fence()));
    r
}

fn label_at(v: &Vec<char>, i: usize, hi: usize) -> (r: bool)
    requires
        i + 4 <= hi <= v.len(),
    ensures
        r == has_label(v@.subrange(i as int, hi as int)),
{
    if i + 4 < hi {
        let c = v[i + 4];
        if ('a' <= c && c <= 'z') || ('A' <= c && c <= 'Z') || ('0' <= c && c <= '9') || c == '_' {
            return false;
        }
    }
    (v[i] == 'j' || v[i] == 'J') && (v[i + 1] == 's' || v[i + 1] == 'S') && (v[i + 2] == 'o'
        || v[i + 2] == 'O') && (v[i + 3] == 'n' || v[i + 3] == 'N')
}

/// Takes fences, surrounding whitespace and a leading `json` label off a raw completion.
pub fn clean_completion(raw: &str) -> (r: String)
    ensures
        r@ == cleaned(raw@),
{
    let v = chars_of(raw);
    let n = v.len();
    assert(v@.subrange(0, n as int) =~= raw@);
    let lo0 = skip_leading_space(&v, 0, n);
    let hi0 = skip_trailing_space(&v, lo0, n);
    let ghost t = v@.subrange(lo0 as int, hi0 as int);
    assert(t == trim(raw@));
    let mut lo = lo0;
    let mut hi = hi0;
    if hi - lo >= 6 && fence_at(&v, lo) && fence_at(&v, hi - 3) {
        assert(t.take(3) =~= v@.subrange(lo as int, lo + 3));
        assert(t.skip(t.len() - 3) =~= v@.subrange(hi - 3, hi as int));
        assert(t.subrange(3, t.len() - 3) =~= v@.subrange(lo + 3, hi - 3));
        lo = lo + 3;
        hi = hi - 3;
    } else {
        proof {
            if t.len() >= 6 {
                assert(t.take(3) =~= v@.subrange(lo as int, lo + 3));
                assert(t.skip(t.len() - 3) =~= v@.subrange(hi - 3, hi as int));
            }
        }
    }
    assert(v@.subrange(lo as int, hi as int) == unfenced(t));
    let lo1 = skip_leading_space(&v, lo, hi);
    let hi1 = skip_trailing_space(&v, lo1, hi);
    let ghost u = v@.subrange(lo1 as int, hi1 as int);
    assert(u == trim(unfenced(t)));
    let mut lo2 = lo1;
    if hi1 - lo1 >= 4 && label_at(&v, lo1, hi1) {
        assert(u.skip(4) =~= v@.subrange(lo1 + 4, hi1 as int));
        lo2 = skip_leading_space(&v, lo1 + 4, hi1);
    }
    string_of(&v, lo2, hi1)
}

/// Chooses between a parsed value and the text it was parsed from.
pub fn settle(parsed: Option<serde_json::Value>, text: String) -> (r: serde_json::Value)
    ensures
        r == settled(parsed, text@),
{
    match parsed {
        Some(v) => v,
        None => string_value(text),
    }
}

/// Normalizes a raw completion: the JSON value of its cleaned text, or, where
/// that text is no valid JSON, the text itself as a JSON string. Never fails.
pub fn normalize(raw: &str) -> (r: serde_json::Value)
    ensures
        r == normalized(raw@),
{
    let text = clean_completion(raw);
    let parsed = parse_json(text.as_str());
    settle(parsed, text)
}

} // verus!
