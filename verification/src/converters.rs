//! Pure helpers for the converters that scrape chat messages and documents
//! and upload rendered pages. The network calls, the cookie jar, the
//! template rendering and the plugin execution belong to collaborators;
//! what is computed from the fetched values — the message id inside a
//! chat link, the document id inside a URL's path, a scraped page title —
//! is decided here.

use vstd::prelude::*;

use crate::ast::{is_space_char, trim_seq};
use crate::error::Error;
use crate::lexer::{digits_value, is_digit_char, lemma_digits_value_grows, push_char, run_len,
    str_chars};

verus! {

/// The `n`-th (zero-based) `/`-separated segment of `s`, or `None` when
/// `s` holds fewer than `n + 1` segments.
pub open spec fn nth_slash_segment(s: Seq<char>, n: nat) -> Option<Seq<char>>
    decreases n, s.len(),
{
    let k = run_len(s, |c: char| c != '/') as int;
    if n == 0 {
        Some(s.take(k))
    } else if k >= s.len() {
        None
    } else {
        nth_slash_segment(s.skip(k + 1), (n - 1) as nat)
    }
}

/// A nonempty string of decimal digits.
pub open spec fn all_digits(s: Seq<char>) -> bool {
    forall|i: int| 0 <= i < s.len() ==> is_digit_char(#[trigger] s[i])
}

/// The message id inside a chat message link: the sixth `/`-separated
/// segment, whitespace-trimmed, read as a decimal number with an optional
/// leading plus sign. `None` when the link has no sixth segment, what
/// follows the optional sign is not one or more digits, or the value does
/// not fit in 64 bits.
pub open spec fn spec_message_id(link: Seq<char>) -> Option<u64> {
    match nth_slash_segment(link, 5) {
        Option::None => None,
        Option::Some(seg) => {
            let t = trim_seq(seg);
            let u = if t.len() >= 1 && t[0] == '+' {
                t.skip(1)
            } else {
                t
            };
            if u.len() >= 1 && all_digits(u) && digits_value(u) <= u64::MAX {
                Some(digits_value(u) as u64)
            } else {
                None
            }
        },
    }
}

/// Once a digit prefix exceeds 64 bits, the full digit string does too.
proof fn lemma_digits_overflow64(s: Seq<char>, k: int, d: int)
    requires
        0 < k <= d <= s.len(),
        digits_value(s.take(k)) > u64::MAX,
    ensures
        digits_value(s.take(d)) > u64::MAX,
    decreases d - k,
{
    if k < d {
        let longer = s.take(k + 1);
        assert(longer.take(longer.len() - 1) =~= s.take(k));
        lemma_digits_value_grows(longer);
        lemma_digits_overflow64(s, k + 1, d);
    }
}

/// The length of the run of characters other than `/` starting at `i`.
fn non_slash_run_from(v: &Vec<char>, i: usize) -> (n: usize)
    requires
        i <= v.len(),
    ensures
        n == run_len(v@.skip(i as int), |c: char| c != '/'),
        i + n <= v.len(),
{
    let mut j: usize = i;
    while j < v.len() && v[j] != '/'
        invariant
            i <= j <= v.len(),
            forall|k: int| i <= k < j ==> #[trigger] v@[k] != '/',
        decreases v.len() - j,
    {
        j += 1;
    }
    proof {
        let s = v@.skip(i as int);
        assert forall|k: int| 0 <= k < j - i implies (|c: char| c != '/')(s[k]) by {
            assert(s[k] == v@[i + k]);
        }
        if j < v.len() {
            assert(s[j - i] == v@[j as int]);
        }
        crate::lexer::lemma_run_len_is(s, |c: char| c != '/', j - i);
    }
    j - i
}

/// Reads `v[from..to]` as a decimal value: `Some` exactly when every
/// character is a digit and the value fits in 64 bits.
fn digits_segment_value(v: &Vec<char>, from: usize, to: usize) -> (r: Option<u64>)
    requires
        from <= to <= v.len(),
    ensures
        match r {
            Some(val) => (forall|q: int| from <= q < to ==> is_digit_char(#[trigger] v@[q]))
                && digits_value(v@.subrange(from as int, to as int)) <= u64::MAX && val
                == digits_value(v@.subrange(from as int, to as int)),
            None => (exists|q: int| from <= q < to && !is_digit_char(#[trigger] v@[q]))
                || digits_value(v@.subrange(from as int, to as int)) > u64::MAX,
        },
{
    let ghost u = v@.subrange(from as int, to as int);
    let mut val: u64 = 0;
    let mut m: usize = from;
    while m < to
        invariant
            from <= m <= to <= v.len(),
            u == v@.subrange(from as int, to as int),
            forall|q: int| from <= q < m ==> is_digit_char(#[trigger] v@[q]),
            val == digits_value(v@.subrange(from as int, m as int)),
        decreases to - m,
    {
        let c = v[m];
        let cu = c as u32;
        if !(48 <= cu && cu <= 57) {
            proof {
                assert(!is_digit_char(v@[m as int]));
            }
            return None;
        }
        let dig: u64 = (cu - 48) as u64;
        let ghost pre = v@.subrange(from as int, m as int);
        let ghost cur = v@.subrange(from as int, m + 1);
        proof {
            assert(cur.take(cur.len() - 1) =~= pre);
            assert(cur[cur.len() - 1] == v@[m as int]);
            assert(dig == crate::lexer::digit_val(v@[m as int]) && dig < 10);
        }
        match val.checked_mul(10) {
            Some(mul) => {
                match mul.checked_add(dig) {
                    Some(next) => {
                        val = next;
                    },
                    None => {
                        proof {
                            assert(u.take(m + 1 - from) =~= cur);
                            lemma_digits_overflow64(u, m + 1 - from, u.len() as int);
                            assert(u.take(u.len() as int) =~= u);
                        }
                        return None;
                    },
                }
            },
            None => {
                proof {
                    assert(u.take(m + 1 - from) =~= cur);
                    lemma_digits_overflow64(u, m + 1 - from, u.len() as int);
                    assert(u.take(u.len() as int) =~= u);
                }
                return None;
            },
        }
        m += 1;
    }
    proof {
        assert(v@.subrange(from as int, m as int) =~= u);
    }
    Some(val)
}

/// Extracts the message id from a chat message link, following
/// [`spec_message_id`]: the sixth `/`-separated segment, trimmed, read as
/// a decimal number with an optional leading plus sign. Every malformed
/// link is [`Error::InvalidLink`].
#[verifier::loop_isolation(false)]
#[verifier::rlimit(100)]
pub fn message_id_from_link(link: &str) -> (r: Result<u64, Error>)
    ensures
        match r {
            Ok(id) => spec_message_id(link@) == Some(id),
            Err(e) => spec_message_id(link@) is None && e == Error::InvalidLink,
        },
{
    let v = str_chars(link);
    let n = v.len();
    let mut i: usize = 0;
    let mut hops: usize = 0;
    proof {
        assert(v@.skip(0) =~= v@);
    }
    while hops < 5
        invariant
            0 <= hops <= 5,
            i <= n,
            nth_slash_segment(link@, 5) == nth_slash_segment(v@.skip(i as int), (5 - hops) as nat),
        decreases 5 - hops,
    {
        let k = non_slash_run_from(&v, i);
        if i + k == n {
            proof {
                assert(v@.skip(i as int).len() == n - i);
                assert(nth_slash_segment(v@.skip(i as int), (5 - hops) as nat) is None);
            }
            return Err(Error::InvalidLink);
        }
        proof {
            assert(v@.skip(i as int).skip(k + 1) =~= v@.skip(i + k + 1));
        }
        i = i + k + 1;
        hops += 1;
    }
    let k = non_slash_run_from(&v, i);
    let ghost seg = v@.skip(i as int).take(k as int);
    proof {
        assert(nth_slash_segment(v@.skip(i as int), 0) == Some(seg));
        assert(seg =~= v@.subrange(i as int, i + k));
    }
    // trim surrounding whitespace from the segment
    let mut s: usize = i;
    let j = i + k;
    while s < j && (v[s] == ' ' || v[s] == '\t' || v[s] == '\n' || v[s] == '\r')
        invariant
            i <= s <= j,
            forall|m: int| i <= m < s ==> is_space_char(#[trigger] v@[m]),
        decreases j - s,
    {
        s += 1;
    }
    let mut e: usize = j;
    while e > s && (v[e - 1] == ' ' || v[e - 1] == '\t' || v[e - 1] == '\n' || v[e - 1] == '\r')
        invariant
            s <= e <= j,
            forall|m: int| e <= m < j ==> is_space_char(#[trigger] v@[m]),
        decreases e,
    {
        e -= 1;
    }
    proof {
        assert forall|m: int| 0 <= m < s - i implies is_space_char(#[trigger] seg[m]) by {
            assert(seg[m] == v@[i + m]);
        }
        if s < j {
            assert(seg[s - i] == v@[s as int]);
        }
        crate::ast::lemma_trim_front_skip(seg, s - i);
        let mid = seg.skip(s - i);
        assert forall|m: int| e - s <= m < mid.len() implies is_space_char(#[trigger] mid[m]) by {
            assert(mid[m] == v@[s + m]);
        }
        if e > s {
            assert(mid[e - s - 1] == v@[e - 1]);
        }
        crate::ast::lemma_trim_back_take(mid, e - s);
        assert(mid.take(e - s) =~= v@.subrange(s as int, e as int));
    }
    let ghost t = trim_seq(seg);
    // an optional leading plus sign is accepted before the digits
    let signed = e > s && v[s] == '+';
    let s0 = if signed {
        s + 1
    } else {
        s
    };
    let ghost u = if t.len() >= 1 && t[0] == '+' {
        t.skip(1)
    } else {
        t
    };
    proof {
        if e > s {
            assert(t[0] == v@[s as int]);
        }
        assert(u =~= v@.subrange(s0 as int, e as int));
    }
    if s0 == e {
        proof {
            assert(u.len() == 0);
        }
        return Err(Error::InvalidLink);
    }
    // every character after the sign must be a digit, and the value must
    // fit in 64 bits
    let parsed = digits_segment_value(&v, s0, e);
    match parsed {
        Some(val) => {
            proof {
                assert forall|q: int| 0 <= q < u.len() implies is_digit_char(
                    #[trigger] u[q],
                ) by {
                    assert(u[q] == v@[s0 + q]);
                    assert(is_digit_char(v@[s0 + q]));
                }
                assert(all_digits(u));
                assert(spec_message_id(link@) == Some(val));
            }
            Ok(val)
        },
        None => {
            proof {
                if exists|q: int| s0 <= q < e && !is_digit_char(#[trigger] v@[q]) {
                    let q = choose|q: int| s0 <= q < e && !is_digit_char(#[trigger] v@[q]);
                    assert(u[q - s0] == v@[q]);
                    assert(!is_digit_char(u[q - s0]));
                    assert(!all_digits(u));
                } else {
                    assert(digits_value(v@.subrange(s0 as int, e as int)) > u64::MAX);
                    assert(digits_value(u) > u64::MAX);
                }
                assert(spec_message_id(link@) is None);
            }
            Err(Error::InvalidLink)
        },
    }
}

/// The document id in a URL path: the segment that follows the first
/// segment `d`, or `None` when no segment `d` exists or nothing follows
/// it.
pub open spec fn spec_doc_id(segs: Seq<Seq<char>>) -> Option<Seq<char>>
    decreases segs.len(),
{
    if segs.len() == 0 {
        None
    } else if segs[0] == seq!['d'] {
        if segs.len() >= 2 {
            Some(segs[1])
        } else {
            None
        }
    } else {
        spec_doc_id(segs.skip(1))
    }
}

/// Finds the document id among a URL's path segments, following
/// [`spec_doc_id`]: the segment after the first segment `d`.
pub fn doc_id_from_segments(segments: &Vec<String>) -> (r: Option<String>)
    ensures
        match r {
            Some(id) => spec_doc_id(segments.deep_view()) == Some(id@),
            None => spec_doc_id(segments.deep_view()) is None,
        },
{
    let ghost segs = segments.deep_view();
    let mut i: usize = 0;
    proof {
        assert(segs.skip(0) =~= segs);
    }
    while i < segments.len()
        invariant
            0 <= i <= segments.len(),
            segs == segments.deep_view(),
            segs.len() == segments.len(),
            spec_doc_id(segs) == spec_doc_id(segs.skip(i as int)),
        decreases segments.len() - i,
    {
        let ghost u = segs.skip(i as int);
        proof {
            assert(u[0] == segs[i as int]);
            assert(segs[i as int] == segments@[i as int]@);
        }
        let seg = segments[i].as_str();
        let is_d = seg.unicode_len() == 1 && seg.get_char(0) == 'd';
        if is_d {
            proof {
                assert(u[0] =~= seq!['d']);
            }
            if i + 1 < segments.len() {
                proof {
                    assert(u[1] == segs[i + 1]);
                    assert(segs[i + 1] == segments@[i + 1]@);
                }
                return Some(segments[i + 1].clone());
            } else {
                proof {
                    assert(u.len() == 1);
                }
                return None;
            }
        }
        proof {
            if u[0] == seq!['d'] {
                assert(u[0].len() == 1 && u[0][0] == 'd');
            }
            assert(u.skip(1) =~= segs.skip(i + 1));
        }
        i += 1;
    }
    proof {
        assert(segs.skip(i as int).len() == 0);
    }
    None
}

/// The suffix a scraped document title carries when it comes from the
/// hosted editor.
pub open spec fn docs_suffix() -> Seq<char> {
    seq![' ', '-', ' ', 'G', 'o', 'o', 'g', 'l', 'e', ' ', 'D', 'o', 'c', 's']
}

/// The title with the hosted editor's ` - Google Docs` suffix removed
/// where it is present, and unchanged otherwise.
pub open spec fn spec_clean_title(s: Seq<char>) -> Seq<char> {
    if s.len() >= 14 && s.subrange(s.len() - 14, s.len() as int) == docs_suffix() {
        s.take(s.len() - 14)
    } else {
        s
    }
}

/// Cleans a scraped document title, following [`spec_clean_title`].
#[verifier::loop_isolation(false)]
pub fn clean_doc_title(title: &str) -> (r: String)
    ensures
        r@ == spec_clean_title(title@),
{
    let v = str_chars(title);
    let n = v.len();
    let has_suffix = n >= 14 && v[n - 14] == ' ' && v[n - 13] == '-' && v[n - 12] == ' ' && v[n
        - 11] == 'G' && v[n - 10] == 'o' && v[n - 9] == 'o' && v[n - 8] == 'g' && v[n - 7] == 'l'
        && v[n - 6] == 'e' && v[n - 5] == ' ' && v[n - 4] == 'D' && v[n - 3] == 'o' && v[n - 2]
        == 'c' && v[n - 1] == 's';
    proof {
        if n >= 14 {
            if has_suffix {
                assert(v@.subrange(n - 14, n as int) =~= docs_suffix());
            } else {
                if v@.subrange(n - 14, n as int) == docs_suffix() {
                    assert(forall|q: int|
                        0 <= q < 14 ==> #[trigger] v@.subrange(n - 14, n as int)[q]
                            == docs_suffix()[q]);
                    assert(v@[n - 14] == ' ' && v@[n - 13] == '-' && v@[n - 12] == ' ' && v@[n - 11]
                        == 'G' && v@[n - 10] == 'o' && v@[n - 9] == 'o' && v@[n - 8] == 'g' && v@[n
                        - 7] == 'l' && v@[n - 6] == 'e' && v@[n - 5] == ' ' && v@[n - 4] == 'D'
                        && v@[n - 3] == 'o' && v@[n - 2] == 'c' && v@[n - 1] == 's');
                }
            }
        }
    }
    let end: usize = if has_suffix {
        n - 14
    } else {
        n
    };
    let mut r = String::new();
    let mut i: usize = 0;
    while i < end
        invariant
            0 <= i <= end <= n,
            n == v.len(),
            r@ == v@.subrange(0, i as int),
        decreases end - i,
    {
        push_char(&mut r, v[i]);
        proof {
            assert(r@ =~= v@.subrange(0, i + 1));
        }
        i += 1;
    }
    proof {
        if has_suffix {
            assert(r@ =~= title@.take(n - 14));
        } else {
            assert(r@ =~= title@);
        }
    }
    r
}

} // verus!
