use vstd::prelude::*;
use crate::errors::StoreError;
use crate::ledger::{file_named, file_summary, Ledger, summaries_view};

verus! {

/// How often the character occurs in the string.
pub open spec fn spec_count(s: Seq<char>, c: char) -> int
    decreases s.len(),
{
    if s.len() == 0 {
        0
    } else {
        spec_count(s.drop_last(), c) + if s.last() == c {
            1int
        } else {
            0int
        }
    }
}

/// The shape under which a specifier is taken as an identifier directly: 36
/// characters, four of them hyphens.
pub open spec fn looks_like_identifier(s: Seq<char>) -> bool {
    s.len() == 36 && spec_count(s, '-') == 4
}

/// A decimal digit.
pub open spec fn is_digit(c: char) -> bool {
    0x30 <= c as u32 <= 0x39
}

pub open spec fn all_digits(s: Seq<char>) -> bool {
    forall|i: int| 0 <= i < s.len() ==> is_digit(#[trigger] s[i])
}

/// The number the digit string denotes.
pub open spec fn digits_val(s: Seq<char>) -> int
    decreases s.len(),
{
    if s.len() == 0 {
        0
    } else {
        10 * digits_val(s.drop_last()) + (s.last() as u32 - 48)
    }
}

/// What a disambiguating index parses to: a non-empty all-digit string
/// denotes its number, anything else fails.
pub open spec fn spec_parse_index(s: Seq<char>) -> Option<int> {
    if s.len() > 0 && all_digits(s) {
        Some(digits_val(s))
    } else {
        None
    }
}

/// The position of the first slash, or the length if there is none.
pub open spec fn first_slash(s: Seq<char>) -> int
    decreases s.len(),
{
    if s.len() == 0 || s[0] == '/' {
        0
    } else {
        1 + first_slash(s.drop_first())
    }
}

proof fn lemma_count_zero(s: Seq<char>, c: char)
    ensures
        (spec_count(s, c) == 0) <==> (forall|i: int| 0 <= i < s.len() ==> (#[trigger] s[i]) != c),
        spec_count(s, c) >= 0,
    decreases s.len(),
{
    if s.len() > 0 {
        lemma_count_zero(s.drop_last(), c);
        if spec_count(s, c) == 0 {
            assert forall|i: int| 0 <= i < s.len() implies (#[trigger] s[i]) != c by {
                if i < s.len() - 1 {
                    assert(s.drop_last()[i] == s[i]);
                }
            }
        }
        if forall|i: int| 0 <= i < s.len() ==> (#[trigger] s[i]) != c {
            assert forall|i: int| 0 <= i < s.drop_last().len() implies (
            #[trigger] s.drop_last()[i]) != c by {
                assert(s.drop_last()[i] == s[i]);
            }
        }
    }
}

proof fn lemma_first_slash_bounds(s: Seq<char>)
    ensures
        0 <= first_slash(s) <= s.len(),
        forall|m: int| 0 <= m < first_slash(s) ==> (#[trigger] s[m]) != '/',
        first_slash(s) < s.len() ==> s[first_slash(s)] == '/',
    decreases s.len(),
{
    if s.len() > 0 && s[0] != '/' {
        lemma_first_slash_bounds(s.drop_first());
        assert forall|m: int| 0 <= m < first_slash(s) implies (#[trigger] s[m]) != '/' by {
            if m > 0 {
                assert(s[m] == s.drop_first()[m - 1]);
            }
        }
    }
}

proof fn lemma_first_slash_unique(s: Seq<char>, k: int)
    requires
        0 <= k <= s.len(),
        forall|m: int| 0 <= m < k ==> (#[trigger] s[m]) != '/',
        k < s.len() ==> s[k] == '/',
    ensures
        first_slash(s) == k,
    decreases s.len(),
{
    if s.len() == 0 || s[0] == '/' {
        if k > 0 {
            assert(s[0] != '/');
        }
    } else {
        assert(k > 0) by {
            if k == 0 {
                assert(s[0] == '/');
            }
        }
        assert forall|m: int| 0 <= m < k - 1 implies (#[trigger] s.drop_first()[m]) != '/' by {
            assert(s.drop_first()[m] == s[m + 1]);
        }
        lemma_first_slash_unique(s.drop_first(), k - 1);
    }
}

proof fn lemma_digits_val_bounds(s: Seq<char>, i: int)
    requires
        all_digits(s),
        0 <= i <= s.len(),
    ensures
        digits_val(s) >= 0,
        digits_val(s) >= digits_val(s.take(i)),
    decreases s.len(),
{
    if s.len() == 0 {
        assert(s.take(i) =~= s);
    } else {
        let dl = s.drop_last();
        assert(all_digits(dl)) by {
            assert forall|m: int| 0 <= m < dl.len() implies is_digit(#[trigger] dl[m]) by {
                assert(dl[m] == s[m]);
            }
        }
        lemma_digits_val_bounds(dl, if i <= dl.len() {
            i
        } else {
            dl.len() as int
        });
        assert(is_digit(s.last()));
        if i == s.len() {
            assert(s.take(i) =~= s);
        } else {
            assert(s.take(i) =~= dl.take(i));
        }
    }
}

fn count_char(s: &str, c: char) -> (r: usize)
    ensures
        r as int == spec_count(s@, c),
{
    let n = s.unicode_len();
    let mut count: usize = 0;
    let mut i: usize = 0;
    proof {
        assert(s@.take(0) =~= Seq::<char>::empty());
    }
    while i < n
        invariant
            0 <= i <= n,
            n == s@.len(),
            count <= i,
            count as int == spec_count(s@.take(i as int), c),
        decreases n - i,
    {
        proof {
            assert(s@.take(i as int + 1).drop_last() =~= s@.take(i as int));
            assert(s@.take(i as int + 1).last() == s@[i as int]);
        }
        if s.get_char(i) == c {
            count += 1;
        }
        i += 1;
    }
    proof {
        assert(s@.take(n as int) =~= s@);
    }
    count
}

fn find_first_slash(s: &str) -> (r: usize)
    ensures
        r as int == first_slash(s@),
        r <= s@.len(),
{
    let n = s.unicode_len();
    let mut i: usize = 0;
    while i < n
        invariant
            0 <= i <= n,
            n == s@.len(),
            forall|m: int| 0 <= m < i ==> (#[trigger] s@[m]) != '/',
        decreases n - i,
    {
        if s.get_char(i) == '/' {
            proof {
                lemma_first_slash_unique(s@, i as int);
            }
            return i;
        }
        i += 1;
    }
    proof {
        lemma_first_slash_unique(s@, n as int);
    }
    n
}

fn parse_index(s: &str, from: usize) -> (r: Option<usize>)
    requires
        from <= s@.len(),
    ensures
        r matches Some(v) ==> spec_parse_index(s@.skip(from as int)) == Some(v as int),
        r is None ==> spec_parse_index(s@.skip(from as int)) is None || (spec_parse_index(
            s@.skip(from as int),
        ) matches Some(v) && v > usize::MAX),
{
    let ghost sub = s@.skip(from as int);
    let n = s.unicode_len();
    if from == n {
        proof {
            assert(sub.len() == 0);
        }
        return None;
    }
    let mut v: usize = 0;
    let mut i: usize = from;
    proof {
        assert(sub.take(0) =~= Seq::<char>::empty());
    }
    while i < n
        invariant
            from <= i <= n,
            n == s@.len(),
            sub == s@.skip(from as int),
            all_digits(sub.take(i - from)),
            v as int == digits_val(sub.take(i - from)),
        decreases n - i,
    {
        let c = s.get_char(i);
        proof {
            assert(sub[i - from] == s@[i as int]);
        }
        let u = c as u32;
        if u < 0x30 || u > 0x39 {
            proof {
                assert(!is_digit(sub[i - from]));
            }
            return None;
        }
        let d = (u - 0x30) as usize;
        let next = match v.checked_mul(10) {
            Some(m) => m.checked_add(d),
            None => None,
        };
        proof {
            assert(sub.take(i - from + 1).drop_last() =~= sub.take(i - from));
            assert(sub.take(i - from + 1).last() == sub[i - from]);
            assert(all_digits(sub.take(i - from + 1))) by {
                assert(forall|m: int|
                    0 <= m < i - from ==> (#[trigger] sub.take(i - from + 1)[m]) == sub.take(
                        i - from,
                    )[m]);
            }
        }
        match next {
            Some(w) => {
                v = w;
            },
            None => {
                // The value already exceeds what an index can be; whether
                // or not the remaining characters are digits, no stored
                // file can answer to it.
                proof {
                    assert(digits_val(sub.take(i - from + 1)) > usize::MAX);
                    if all_digits(sub) {
                        lemma_digits_val_bounds(sub, i - from + 1);
                    }
                }
                return None;
            },
        }
        i += 1;
    }
    proof {
        assert(sub.take(n - from) =~= sub);
        assert(sub.len() > 0);
    }
    Some(v)
}

/// Turn an operator-supplied file specifier into an identifier. A
/// 36-character string with four hyphens is taken as the identifier itself.
/// Anything else names a file: bare names must match exactly one recorded
/// file — several matches ask for an index, reported as
/// `AmbiguousSpecifier` — and `name/k` picks the k-th match, counted from
/// one in recorded order. Whatever addresses nothing is `NotFound`.
pub fn resolve_file_spec(ledger: &Ledger, file_spec: &str) -> (r: Result<String, StoreError>)
    ensures
        looks_like_identifier(file_spec@) ==> (r matches Ok(id) && id@ == file_spec@),
        !looks_like_identifier(file_spec@) ==> {
            let slashes = spec_count(file_spec@, '/');
            let k = first_slash(file_spec@);
            let name = if slashes == 0 {
                file_spec@
            } else {
                file_spec@.take(k)
            };
            let ms = ledger@.files.filter(file_named(name));
            &&& (slashes >= 2 ==> r == Err::<String, StoreError>(StoreError::NotFound))
            &&& (slashes == 0 ==> {
                &&& (ms.len() == 0 ==> r == Err::<String, StoreError>(StoreError::NotFound))
                &&& (ms.len() == 1 ==> (r matches Ok(id) && id@ == ms[0].identifier))
                &&& (ms.len() >= 2 ==> r == Err::<String, StoreError>(
                    StoreError::AmbiguousSpecifier,
                ))
            })
            &&& (slashes == 1 ==> {
                let pv = spec_parse_index(file_spec@.skip(k + 1));
                &&& (pv is None ==> r == Err::<String, StoreError>(StoreError::NotFound))
                &&& (pv matches Some(v) ==> {
                    &&& (1 <= v <= ms.len() ==> (r matches Ok(id) && id@ == ms[v
                        - 1].identifier))
                    &&& (!(1 <= v <= ms.len()) ==> r == Err::<String, StoreError>(
                        StoreError::NotFound,
                    ))
                })
            })
        },
{
    broadcast use vstd::seq_lib::group_filter_ensures;

    let n = file_spec.unicode_len();
    if n == 36 {
        let dashes = count_char(file_spec, '-');
        if dashes == 4 {
            return Ok(file_spec.to_owned());
        }
    }
    let slashes = count_char(file_spec, '/');
    if slashes >= 2 {
        return Err(StoreError::NotFound);
    }
    if slashes == 0 {
        let ms = ledger.find_by_name(file_spec);
        let ghost msv = ledger@.files.filter(file_named(file_spec@));
        proof {
            assert(summaries_view(ms@).len() == ms@.len());
            assert(msv.map_values(file_summary()).len() == msv.len());
        }
        if ms.len() == 0 {
            return Err(StoreError::NotFound);
        }
        if ms.len() == 1 {
            let id = ms[0].0.clone();
            proof {
                assert(summaries_view(ms@)[0] == (ms@[0].0@, ms@[0].1 as int));
                assert(msv.map_values(file_summary())[0] == file_summary()(msv[0]));
            }
            return Ok(id);
        }
        return Err(StoreError::AmbiguousSpecifier);
    }
    let k = find_first_slash(file_spec);
    proof {
        lemma_first_slash_bounds(file_spec@);
        if k as int == file_spec@.len() {
            lemma_count_zero(file_spec@, '/');
        }
        assert(k < file_spec@.len());
    }
    let name = file_spec.substring_char(0, k);
    proof {
        assert(name@ == file_spec@.take(k as int));
    }
    let ms = ledger.find_by_name(name);
    let ghost msv = ledger@.files.filter(file_named(file_spec@.take(k as int)));
    proof {
        assert(summaries_view(ms@).len() == ms@.len());
        assert(msv.map_values(file_summary()).len() == msv.len());
    }
    match parse_index(file_spec, k + 1) {
        None => {
            let count = ms.len();
            proof {
                assert(count == ms@.len());
                assert(summaries_view(ms@).len() == ms@.len());
                assert(msv.map_values(file_summary()).len() == msv.len());
            }
            Err(StoreError::NotFound)
        },
        Some(v) => {
            if v >= 1 && v <= ms.len() {
                let id = ms[v - 1].0.clone();
                proof {
                    assert(summaries_view(ms@)[v - 1] == (ms@[v - 1].0@, ms@[v - 1].1 as int));
                    assert(msv.map_values(file_summary())[v - 1] == file_summary()(
                        msv[v - 1],
                    ));
                }
                Ok(id)
            } else {
                proof {
                    let pv = spec_parse_index(file_spec@.skip(k as int + 1));
                    if pv is Some && 1 <= pv->0 <= msv.len() {
                        assert(pv->0 == v as int);
                    }
                }
                Err(StoreError::NotFound)
            }
        },
    }
}

} // verus!
