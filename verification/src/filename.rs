use vstd::prelude::*;
use crate::errors::StoreError;

verus! {

/// A blank character in the sense of Unicode's White_Space property: what
/// trimming removes from the ends of a name.
pub open spec fn is_space_char(c: char) -> bool {
    let u = c as u32;
    u == 0x20 || (0x09 <= u <= 0x0D) || u == 0x85 || u == 0xA0 || u == 0x1680 || (0x2000 <= u
        <= 0x200A) || u == 0x2028 || u == 0x2029 || u == 0x202F || u == 0x205F || u == 0x3000
}

/// A control character (the C0 and C1 ranges).
pub open spec fn is_control_char(c: char) -> bool {
    let u = c as u32;
    u < 0x20 || (0x7F <= u <= 0x9F)
}

/// A character a stored filename may never hold: path separators, control
/// characters and the punctuation that confuses shells and other filesystems.
pub open spec fn forbidden_char(c: char) -> bool {
    c == '/' || c == '\\' || is_control_char(c) || c == '<' || c == '>' || c == ':' || c == '"'
        || c == '|' || c == '?' || c == '*'
}

/// How many blanks the name starts with.
pub open spec fn trim_start_count(s: Seq<char>) -> int
    decreases s.len(),
{
    if s.len() == 0 || !is_space_char(s[0]) {
        0
    } else {
        1 + trim_start_count(s.drop_first())
    }
}

/// How many blanks the name ends with.
pub open spec fn trim_end_count(s: Seq<char>) -> int
    decreases s.len(),
{
    if s.len() == 0 || !is_space_char(s.last()) {
        0
    } else {
        1 + trim_end_count(s.drop_last())
    }
}

/// The name with the blanks at both ends removed.
pub open spec fn trimmed(s: Seq<char>) -> Seq<char> {
    if trim_start_count(s) == s.len() {
        Seq::empty()
    } else {
        s.subrange(trim_start_count(s), s.len() - trim_end_count(s))
    }
}

/// A trimmed name the store accepts: non-empty, not a hidden-file name, no
/// forbidden character, and no parent-directory segment.
pub open spec fn filename_ok(t: Seq<char>) -> bool {
    &&& t.len() > 0
    &&& t[0] != '.'
    &&& forall|i: int| 0 <= i < t.len() ==> !forbidden_char(#[trigger] t[i])
    &&& forall|i: int| 0 <= i < t.len() - 1 ==> !((#[trigger] t[i]) == '.' && t[i + 1] == '.')
}

pub proof fn lemma_trim_start_bounds(s: Seq<char>)
    ensures
        0 <= trim_start_count(s) <= s.len(),
        forall|k: int| 0 <= k < trim_start_count(s) ==> is_space_char(#[trigger] s[k]),
        trim_start_count(s) < s.len() ==> !is_space_char(s[trim_start_count(s)]),
    decreases s.len(),
{
    if s.len() > 0 && is_space_char(s[0]) {
        lemma_trim_start_bounds(s.drop_first());
        assert forall|k: int| 0 <= k < trim_start_count(s) implies is_space_char(
            #[trigger] s[k],
        ) by {
            if k > 0 {
                assert(s[k] == s.drop_first()[k - 1]);
            }
        }
    }
}

pub proof fn lemma_trim_end_bounds(s: Seq<char>)
    ensures
        0 <= trim_end_count(s) <= s.len(),
        forall|k: int| s.len() - trim_end_count(s) <= k < s.len() ==> is_space_char(
            #[trigger] s[k],
        ),
        trim_end_count(s) < s.len() ==> !is_space_char(s[s.len() - trim_end_count(s) - 1]),
    decreases s.len(),
{
    if s.len() > 0 && is_space_char(s.last()) {
        lemma_trim_end_bounds(s.drop_last());
        assert forall|k: int| s.len() - trim_end_count(s) <= k < s.len() implies is_space_char(
            #[trigger] s[k],
        ) by {
            if k < s.len() - 1 {
                assert(s[k] == s.drop_last()[k]);
            }
        }
    }
}

proof fn lemma_trim_start_unique(s: Seq<char>, a: int)
    requires
        0 <= a <= s.len(),
        forall|k: int| 0 <= k < a ==> is_space_char(#[trigger] s[k]),
        a < s.len() ==> !is_space_char(s[a]),
    ensures
        trim_start_count(s) == a,
    decreases s.len(),
{
    if s.len() == 0 || !is_space_char(s[0]) {
        if a > 0 {
            assert(is_space_char(s[0]));
        }
    } else {
        assert(a > 0) by {
            if a == 0 {
                assert(!is_space_char(s[0]));
            }
        }
        lemma_trim_start_unique(s.drop_first(), a - 1);
    }
}

proof fn lemma_trim_end_unique(s: Seq<char>, c: int)
    requires
        0 <= c <= s.len(),
        forall|k: int| s.len() - c <= k < s.len() ==> is_space_char(#[trigger] s[k]),
        c < s.len() ==> !is_space_char(s[s.len() - c - 1]),
    ensures
        trim_end_count(s) == c,
    decreases s.len(),
{
    if s.len() == 0 || !is_space_char(s.last()) {
        if c > 0 {
            assert(is_space_char(s[s.len() - 1]));
        }
    } else {
        assert(c > 0) by {
            if c == 0 {
                assert(!is_space_char(s[s.len() - 1]));
            }
        }
        assert forall|k: int| s.drop_last().len() - (c - 1) <= k < s.drop_last().len()
            implies is_space_char(#[trigger] s.drop_last()[k]) by {
            assert(s.drop_last()[k] == s[k]);
        }
        lemma_trim_end_unique(s.drop_last(), c - 1);
    }
}

/// If anything but blanks is in the name, the trim window is non-empty.
pub proof fn lemma_trim_window(s: Seq<char>)
    requires
        trim_start_count(s) < s.len(),
    ensures
        trim_start_count(s) + trim_end_count(s) < s.len(),
        trimmed(s).len() == s.len() - trim_start_count(s) - trim_end_count(s),
{
    lemma_trim_start_bounds(s);
    lemma_trim_end_bounds(s);
    let a = trim_start_count(s);
    if s.len() - trim_end_count(s) <= a {
        assert(is_space_char(s[a]));
    }
}

fn char_is_space(c: char) -> (r: bool)
    ensures
        r == is_space_char(c),
{
    let u = c as u32;
    u == 0x20 || (0x09 <= u && u <= 0x0D) || u == 0x85 || u == 0xA0 || u == 0x1680 || (0x2000 <= u
        && u <= 0x200A) || u == 0x2028 || u == 0x2029 || u == 0x202F || u == 0x205F || u == 0x3000
}

fn char_is_forbidden(c: char) -> (r: bool)
    ensures
        r == forbidden_char(c),
{
    let u = c as u32;
    u == 0x2F || u == 0x5C || u < 0x20 || (0x7F <= u && u <= 0x9F) || u == 0x3C || u == 0x3E
        || u == 0x3A || u == 0x22 || u == 0x7C || u == 0x3F || u == 0x2A
}

/// Trim the name and hold it to the store's rules: reject an empty or hidden
/// result, any forbidden character and any parent-directory segment; return
/// the trimmed name otherwise.
pub fn sanitize_filename(name: &str) -> (r: Result<String, StoreError>)
    ensures
        r is Ok <==> filename_ok(trimmed(name@)),
        r matches Ok(f) ==> f@ == trimmed(name@),
        r matches Err(e) ==> e == StoreError::InvalidFilename,
{
    let ghost s = name@;
    let n = name.unicode_len();
    let mut a: usize = 0;
    while a < n && char_is_space(name.get_char(a))
        invariant
            s == name@,
            0 <= a <= n,
            n == s.len(),
            forall|k: int| 0 <= k < a ==> is_space_char(#[trigger] s[k]),
        decreases n - a,
    {
        a += 1;
    }
    proof {
        lemma_trim_start_unique(s, a as int);
    }
    if a == n {
        return Err(StoreError::InvalidFilename);
    }
    let mut b: usize = n;
    while b > a && char_is_space(name.get_char(b - 1))
        invariant
            s == name@,
            a <= b <= n,
            n == s.len(),
            a < n,
            !is_space_char(s[a as int]),
            forall|k: int| b <= k < n ==> is_space_char(#[trigger] s[k]),
        decreases b,
    {
        b -= 1;
    }
    proof {
        if b == a {
            assert(is_space_char(s[a as int]));
        }
        lemma_trim_end_unique(s, n - b);
        assert(trimmed(s) == s.subrange(a as int, b as int));
    }
    let ghost t = trimmed(s);
    assert(t.len() == b - a);
    if name.get_char(a) == '.' {
        proof {
            assert(t[0] == s[a as int]);
        }
        return Err(StoreError::InvalidFilename);
    }
    let mut i: usize = a;
    while i < b
        invariant
            s == name@,
            a <= i <= b <= n,
            n == s.len(),
            t == trimmed(s),
            t == s.subrange(a as int, b as int),
            forall|k: int| a <= k < i ==> !forbidden_char(#[trigger] s[k]),
            forall|k: int|
                a <= k < i && k + 1 < b ==> !((#[trigger] s[k]) == '.' && s[k + 1] == '.'),
        decreases b - i,
    {
        let c = name.get_char(i);
        if char_is_forbidden(c) {
            proof {
                assert(t[i - a] == s[i as int]);
            }
            return Err(StoreError::InvalidFilename);
        }
        if c == '.' && i + 1 < b {
            if name.get_char(i + 1) == '.' {
                proof {
                    assert(t[i - a] == s[i as int]);
                    assert(t[i + 1 - a] == s[i as int + 1]);
                }
                return Err(StoreError::InvalidFilename);
            }
        }
        i += 1;
    }
    proof {
        assert(t[0] == s[a as int]);
        assert forall|j: int| 0 <= j < t.len() implies !forbidden_char(#[trigger] t[j]) by {
            assert(t[j] == s[a + j]);
        }
        assert forall|j: int| 0 <= j < t.len() - 1 implies !((#[trigger] t[j]) == '.' && t[j + 1]
            == '.') by {
            assert(t[j] == s[a + j]);
            assert(t[j + 1] == s[a + j + 1]);
        }
    }
    let out = name.substring_char(a, b).to_owned();
    Ok(out)
}

/// Law: a name holding a path separator or a parent-directory segment
/// anywhere, or a control character outside the trimmed blanks, and any name
/// whose trimmed form is empty or begins with a dot — a hidden-file name —
/// is never accepted by sanitization.
pub proof fn lemma_sanitize_rejects(s: Seq<char>)
    ensures
        (exists|i: int| 0 <= i < s.len() && ((#[trigger] s[i]) == '/' || s[i] == '\\'))
            ==> !filename_ok(trimmed(s)),
        (exists|i: int| 0 <= i < s.len() - 1 && (#[trigger] s[i]) == '.' && s[i + 1] == '.')
            ==> !filename_ok(trimmed(s)),
        (exists|i: int|
            0 <= i < s.len() && is_control_char(#[trigger] s[i]) && !is_space_char(s[i]))
            ==> !filename_ok(trimmed(s)),
        s.len() > 0 && s[0] == '.' ==> !filename_ok(trimmed(s)),
        trimmed(s).len() == 0 ==> !filename_ok(trimmed(s)),
        trimmed(s).len() > 0 && trimmed(s)[0] == '.' ==> !filename_ok(trimmed(s)),
{
    lemma_trim_start_bounds(s);
    lemma_trim_end_bounds(s);
    let a = trim_start_count(s);
    let t = trimmed(s);
    if exists|i: int| 0 <= i < s.len() && ((#[trigger] s[i]) == '/' || s[i] == '\\') {
        let i = choose|i: int| 0 <= i < s.len() && ((#[trigger] s[i]) == '/' || s[i] == '\\');
        lemma_in_window(s, i);
        assert(t[i - a] == s[i]);
        assert(forbidden_char(t[i - a]));
    }
    if exists|i: int| 0 <= i < s.len() - 1 && (#[trigger] s[i]) == '.' && s[i + 1] == '.' {
        let i = choose|i: int| 0 <= i < s.len() - 1 && (#[trigger] s[i]) == '.' && s[i + 1] == '.';
        lemma_in_window(s, i);
        lemma_in_window(s, i + 1);
        assert(t[i - a] == s[i] && t[i + 1 - a] == s[i + 1]);
    }
    if exists|i: int|
        0 <= i < s.len() && is_control_char(#[trigger] s[i]) && !is_space_char(s[i]) {
        let i = choose|i: int|
            0 <= i < s.len() && is_control_char(#[trigger] s[i]) && !is_space_char(s[i]);
        lemma_in_window(s, i);
        assert(t[i - a] == s[i]);
        assert(forbidden_char(t[i - a]));
    }
    if s.len() > 0 && s[0] == '.' && a < s.len() {
        if a > 0 {
            assert(is_space_char(s[0]));
        }
        lemma_trim_window(s);
        assert(t[0] == s[0]);
    }
}

/// A non-blank character of the name survives trimming, at its old index
/// shifted by the trimmed prefix.
proof fn lemma_in_window(s: Seq<char>, i: int)
    requires
        0 <= i < s.len(),
        !is_space_char(s[i]),
    ensures
        trim_start_count(s) <= i < s.len() - trim_end_count(s),
        trim_start_count(s) < s.len(),
        trimmed(s)[i - trim_start_count(s)] == s[i],
{
    lemma_trim_start_bounds(s);
    lemma_trim_end_bounds(s);
    if i < trim_start_count(s) {
        assert(is_space_char(s[i]));
    }
    if i >= s.len() - trim_end_count(s) {
        assert(is_space_char(s[i]));
    }
    lemma_trim_window(s);
}

} // verus!
