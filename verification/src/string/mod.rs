//! Pattern matching over the bytes of strings.

pub mod hashing;

use vstd::prelude::*;
use vstd::string::StringSliceAdditionalSpecFns;

verus! {

/// Whether `pattern` occurs in `text` at index `at`.
pub open spec fn matches_at(text: Seq<u8>, pattern: Seq<u8>, at: int) -> bool {
    &&& 0 <= at
    &&& at + pattern.len() <= text.len()
    &&& forall|t: int| 0 <= t < pattern.len() ==> #[trigger] text[at + t] == pattern[t]
}

/// Whether the first `k` bytes of `pattern` are the last `k` of its first
/// `len`, and fewer than those: `k` is the length of a border.
pub open spec fn is_border(pattern: Seq<u8>, len: int, k: int) -> bool {
    &&& 0 <= k < len <= pattern.len()
    &&& forall|t: int| 0 <= t < k ==> #[trigger] pattern[t] == pattern[len - k + t]
}

/// Whether `k` is the length of the longest border of the first `len`
/// bytes of `pattern`.
pub open spec fn is_longest_border(pattern: Seq<u8>, len: int, k: int) -> bool {
    &&& is_border(pattern, len, k)
    &&& forall|b: int| is_border(pattern, len, b) ==> b <= k
}

/// Whether `table` holds, for every prefix of `pattern`, the length of its
/// longest border.
pub open spec fn is_failure_table(pattern: Seq<u8>, table: Seq<usize>) -> bool {
    &&& table.len() == pattern.len()
    &&& forall|i: int| 0 <= i < pattern.len() ==> is_longest_border(pattern, i + 1, #[trigger] table[i] as int)
}

/// Whether the first `k` bytes of `pattern` are the `k` bytes of `text`
/// before index `end`.
pub open spec fn suffix_match(text: Seq<u8>, pattern: Seq<u8>, end: int, k: int) -> bool {
    &&& 0 <= k <= end <= text.len()
    &&& k <= pattern.len()
    &&& forall|t: int| 0 <= t < k ==> #[trigger] pattern[t] == text[end - k + t]
}

/// A border of a border is a border, and of two borders the shorter is a
/// border of the longer.
pub proof fn lemma_border_of_border(pattern: Seq<u8>, len: int, j: int, b: int)
    requires
        is_border(pattern, len, j),
    ensures
        is_border(pattern, j, b) ==> is_border(pattern, len, b),
        is_border(pattern, len, b) && b < j ==> is_border(pattern, j, b),
{
    if is_border(pattern, j, b) {
        assert forall|t: int| 0 <= t < b implies #[trigger] pattern[t] == pattern[len - b + t] by {
            assert(pattern[t] == pattern[j - b + t]);
            assert(pattern[j - b + t] == pattern[len - j + (j - b + t)]);
        }
    }
    if is_border(pattern, len, b) && b < j {
        assert forall|t: int| 0 <= t < b implies #[trigger] pattern[t] == pattern[j - b + t] by {
            assert(pattern[t] == pattern[len - b + t]);
            assert(pattern[j - b + t] == pattern[len - j + (j - b + t)]);
        }
    }
}

/// For every prefix of `pattern` the length of its longest border: the
/// longest piece, shorter than the prefix, that both begins and ends it.
pub fn kmp_table(pattern: &str) -> (failure: Vec<usize>)
    ensures
        is_failure_table(pattern.spec_bytes(), failure@),
{
    failure_table(pattern.as_bytes())
}

/// Whether the first `upto` entries of `table` hold the lengths of the
/// longest borders of the prefixes of `pattern`.
#[verifier::opaque]
pub open spec fn table_upto(pattern: Seq<u8>, table: Seq<usize>, upto: int) -> bool {
    forall|k: int| 0 <= k < upto ==> is_longest_border(pattern, k + 1, #[trigger] table[k] as int)
}

/// Whether no border of the first `len` bytes that the byte at `len`
/// prolongs is longer than `j`.
#[verifier::opaque]
pub open spec fn capped(pattern: Seq<u8>, len: int, j: int) -> bool {
    forall|b: int| is_border(pattern, len, b) && pattern[b] == pattern[len] ==> b <= j
}

/// An entry of a table filled up to `upto` is the length of a longest
/// border.
proof fn lemma_table_lookup(pattern: Seq<u8>, table: Seq<usize>, upto: int, k: int)
    requires
        table_upto(pattern, table, upto),
        0 <= k < upto,
    ensures
        is_longest_border(pattern, k + 1, table[k] as int),
{
    reveal(table_upto);
}

/// A table filled up to `upto` is filled one further once it takes the
/// length of the longest border of the next prefix.
proof fn lemma_table_grows(pattern: Seq<u8>, table: Seq<usize>, upto: int, j: usize)
    requires
        table_upto(pattern, table, upto),
        0 <= upto < table.len(),
        is_longest_border(pattern, upto + 1, j as int),
    ensures
        table_upto(pattern, table.update(upto, j), upto + 1),
{
    reveal(table_upto);
    let grown = table.update(upto, j);
    assert forall|k: int| 0 <= k < upto + 1 implies is_longest_border(
        pattern,
        k + 1,
        #[trigger] grown[k] as int,
    ) by {
        if k < upto {
            assert(grown[k] == table[k]);
        }
    }
}

/// The first byte alone has no border but the empty one.
proof fn lemma_table_begins(pattern: Seq<u8>, table: Seq<usize>)
    requires
        pattern.len() > 0,
        table.len() == pattern.len(),
        table[0] == 0,
    ensures
        table_upto(pattern, table, 1),
{
    reveal(table_upto);
    assert(is_longest_border(pattern, 1, 0));
}

/// A table filled up to the length of the pattern is its failure table.
proof fn lemma_table_done(pattern: Seq<u8>, table: Seq<usize>)
    requires
        table.len() == pattern.len(),
        table_upto(pattern, table, pattern.len() as int),
    ensures
        is_failure_table(pattern, table),
{
    reveal(table_upto);
}

/// No border is longer than the longest.
proof fn lemma_capped_first(pattern: Seq<u8>, len: int, j: int)
    requires
        is_longest_border(pattern, len, j),
    ensures
        capped(pattern, len, j),
{
    reveal(capped);
}

/// A border that the next byte does not prolong gives way to its own
/// longest border.
#[verifier::rlimit(40)]
proof fn lemma_capped_shrinks(pattern: Seq<u8>, len: int, wide: int, narrow: int)
    requires
        len < pattern.len(),
        is_border(pattern, len, wide),
        0 < wide,
        capped(pattern, len, wide),
        pattern[wide] != pattern[len],
        is_longest_border(pattern, wide, narrow),
    ensures
        is_border(pattern, len, narrow),
        capped(pattern, len, narrow),
{
    reveal(capped);
    lemma_border_of_border(pattern, len, wide, narrow);
    assert forall|b: int| is_border(pattern, len, b) && pattern[b] == pattern[len] implies b
        <= narrow by {
        lemma_border_of_border(pattern, len, wide, b);
    }
}

/// A border of a prefix that the next byte prolongs is a border of the
/// prefix with that byte.
proof fn lemma_border_prolonged(pattern: Seq<u8>, len: int, j: int)
    requires
        0 < len < pattern.len(),
        is_border(pattern, len, j),
        pattern[len] == pattern[j],
    ensures
        is_border(pattern, len + 1, j + 1),
{
    let longer = len + 1;
    let next = j + 1;
    assert forall|t: int| 0 <= t < next implies #[trigger] pattern[t] == pattern[longer - next + t] by {
        if t < j {
            assert(pattern[t] == pattern[len - j + t]);
        }
    }
}

/// A border of a prefix with one more byte, less its last byte, is a
/// border of the prefix that the byte prolongs.
proof fn lemma_border_shortened(pattern: Seq<u8>, len: int, b: int)
    requires
        0 < len < pattern.len(),
        is_border(pattern, len + 1, b),
        b >= 1,
    ensures
        is_border(pattern, len, b - 1),
        pattern[b - 1] == pattern[len],
{
    let longer = len + 1;
    let shorter = b - 1;
    assert forall|t: int| 0 <= t < shorter implies #[trigger] pattern[t] == pattern[len - shorter
        + t] by {
        assert(pattern[t] == pattern[longer - b + t]);
    }
    assert(pattern[b - 1] == pattern[longer - b + (b - 1)]);
}

/// The longest border of one more byte: the border found, prolonged where
/// the byte fits, and no border where it does not fit the empty one.
#[verifier::rlimit(40)]
proof fn lemma_capped_closes(pattern: Seq<u8>, len: int, j: int)
    requires
        0 < len < pattern.len(),
        is_border(pattern, len, j),
        capped(pattern, len, j),
        pattern[len] != pattern[j] ==> j == 0,
    ensures
        is_longest_border(
            pattern,
            len + 1,
            if pattern[len] == pattern[j] {
                j + 1
            } else {
                j
            },
        ),
{
    let next = if pattern[len] == pattern[j] {
        j + 1
    } else {
        j
    };
    let longer = len + 1;
    if pattern[len] == pattern[j] {
        lemma_border_prolonged(pattern, len, j);
    } else {
        assert(is_border(pattern, longer, 0));
    }
    assert forall|b: int| is_border(pattern, longer, b) implies b <= next by {
        if b >= 1 {
            lemma_border_shortened(pattern, len, b);
            lemma_capped_use(pattern, len, j, b - 1);
        }
    }
}

/// A border that the next byte prolongs is no longer than the cap.
proof fn lemma_capped_use(pattern: Seq<u8>, len: int, j: int, b: int)
    requires
        capped(pattern, len, j),
        is_border(pattern, len, b),
        pattern[b] == pattern[len],
    ensures
        b <= j,
{
    reveal(capped);
}

/// The failure table of a pattern given as bytes.
#[verifier::rlimit(40)]
fn failure_table(pattern: &[u8]) -> (failure: Vec<usize>)
    ensures
        is_failure_table(pattern@, failure@),
{
    let n = pattern.len();
    let ghost p = pattern@;
    let mut failure: Vec<usize> = vec![0usize; n];
    if n == 0 {
        return failure;
    }
    proof {
        lemma_table_begins(p, failure@);
    }
    let mut j: usize = 0;
    let mut i: usize = 1;
    while i < n
        invariant
            p == pattern@,
            n == p.len(),
            failure@.len() == n,
            1 <= i <= n,
            j == failure@[i - 1],
            table_upto(p, failure@, i as int),
        decreases n - i,
    {
        proof {
            lemma_table_lookup(p, failure@, i as int, i - 1);
            lemma_capped_first(p, i as int, j as int);
        }
        while j > 0 && pattern[i] != pattern[j]
            invariant
                p == pattern@,
                n == p.len(),
                failure@.len() == n,
                1 <= i < n,
                is_border(p, i as int, j as int),
                table_upto(p, failure@, i as int),
                capped(p, i as int, j as int),
            decreases j,
        {
            let ghost wide = j as int;
            j = failure[j - 1];
            proof {
                lemma_table_lookup(p, failure@, i as int, wide - 1);
                lemma_capped_shrinks(p, i as int, wide, j as int);
            }
        }
        proof {
            lemma_capped_closes(p, i as int, j as int);
        }
        if pattern[i] == pattern[j] {
            j += 1;
        }
        proof {
            lemma_table_grows(p, failure@, i as int, j);
        }
        failure.set(i, j);
        i += 1;
    }
    proof {
        lemma_table_done(p, failure@);
    }
    failure
}

/// Whether `found` lists, in ascending order, the indices below `bound` at
/// which `pattern` occurs in `text`.
pub open spec fn lists_matches(text: Seq<u8>, pattern: Seq<u8>, found: Seq<usize>, bound: int) -> bool {
    &&& forall|a: int, b: int| 0 <= a < b < found.len() ==> found[a] < found[b]
    &&& forall|a: int|
        0 <= a < found.len() ==> (#[trigger] found[a]) < bound && matches_at(
            text,
            pattern,
            found[a] as int,
        )
    &&& forall|at: int|
        0 <= at < bound && matches_at(text, pattern, at) ==> exists|a: int|
            0 <= a < found.len() && #[trigger] found[a] == at
}

/// The indices at which `pattern` occurs in `text`, in ascending order.
/// An empty pattern occurs nowhere.
#[verifier::rlimit(40)]
pub fn kmp_search(text: &str, pattern: &str) -> (found: Vec<usize>)
    ensures
        pattern.spec_bytes().len() == 0 ==> found@.len() == 0,
        pattern.spec_bytes().len() > 0 ==> lists_matches(
            text.spec_bytes(),
            pattern.spec_bytes(),
            found@,
            text.spec_bytes().len() as int,
        ),
{
    let text_bytes = text.as_bytes();
    let pattern_bytes = pattern.as_bytes();
    let n = text_bytes.len();
    let m = pattern_bytes.len();
    let ghost t = text_bytes@;
    let ghost p = pattern_bytes@;
    if m == 0 {
        return Vec::new();
    }
    if m > n {
        return Vec::new();
    }
    let failure = failure_table(pattern_bytes);
    let mut matches: Vec<usize> = Vec::new();
    let mut j: usize = 0;
    let mut i: usize = 0;
    while i < n
        invariant
            t == text_bytes@,
            p == pattern_bytes@,
            n == t.len(),
            m == p.len(),
            0 < m <= n,
            i <= n,
            is_failure_table(p, failure@),
            j < m,
            suffix_match(t, p, i as int, j as int),
            forall|k: int| k < m && suffix_match(t, p, i as int, k) ==> k <= j,
            lists_matches(t, p, matches@, i - m + 1),
        decreases n - i,
    {
        while j > 0 && text_bytes[i] != pattern_bytes[j]
            invariant
                t == text_bytes@,
                p == pattern_bytes@,
                n == t.len(),
                m == p.len(),
                i < n,
                is_failure_table(p, failure@),
                j < m,
                suffix_match(t, p, i as int, j as int),
                forall|k: int|
                    k < m && suffix_match(t, p, i as int, k) && p[k] == t[i as int] ==> k <= j,
            decreases j,
        {
            let ghost wide = j as int;
            j = failure[j - 1];
            proof {
                assert(is_longest_border(p, wide - 1 + 1, failure@[wide - 1] as int));
                assert(suffix_match(t, p, i as int, j as int)) by {
                    assert forall|s: int| 0 <= s < j implies #[trigger] p[s] == t[i - j + s] by {
                        assert(p[s] == p[wide - j + s]);
                        assert(p[wide - j + s] == t[i - wide + (wide - j + s)]);
                    }
                }
                assert forall|k: int|
                    k < m && suffix_match(t, p, i as int, k) && p[k] == t[i as int] implies k
                    <= j by {
                    if k < wide {
                        assert(is_border(p, wide, k)) by {
                            assert forall|s: int| 0 <= s < k implies #[trigger] p[s] == p[wide - k
                                + s] by {
                                assert(p[s] == t[i - k + s]);
                                assert(p[wide - k + s] == t[i - wide + (wide - k + s)]);
                            }
                        }
                    }
                }
            }
        }
        if text_bytes[i] == pattern_bytes[j] {
            j += 1;
        }
        let ghost stop = i + 1;
        proof {
            assert(suffix_match(t, p, stop, j as int)) by {
                if j > 0 {
                    assert forall|s: int| 0 <= s < j implies #[trigger] p[s] == t[i + 1 - j + s] by {
                        if s < j - 1 {
                            assert(p[s] == t[i - (j - 1) + s]);
                        }
                    }
                }
            }
            assert forall|k: int| k <= m && suffix_match(t, p, stop, k) implies k <= j by {
                if k >= 1 {
                    assert(suffix_match(t, p, i as int, k - 1)) by {
                        assert forall|s: int| 0 <= s < k - 1 implies #[trigger] p[s] == t[i - (k
                            - 1) + s] by {
                            assert(p[s] == t[i + 1 - k + s]);
                        }
                    }
                    assert(p[k - 1] == t[i + 1 - k + (k - 1)]);
                }
            }
            lemma_window(t, p, stop, j as int);
        }
        if j == m {
            let ghost before = matches@;
            matches.push(i + 1 - m);
            proof {
                assert(matches@[before.len() as int] == i + 1 - m);
                assert forall|at: int|
                    0 <= at < i + 1 - m + 1 && matches_at(t, p, at) implies exists|a: int|
                    0 <= a < matches@.len() && #[trigger] matches@[a] == at by {
                    if at < i + 1 - m {
                        let a = choose|a: int| 0 <= a < before.len() && #[trigger] before[a] == at;
                        assert(matches@[a] == at);
                    }
                }
            }
            let ghost whole = j as int;
            j = failure[j - 1];
            proof {
                assert(is_longest_border(p, m - 1 + 1, failure@[m - 1] as int));
                assert(suffix_match(t, p, stop, j as int)) by {
                    assert forall|s: int| 0 <= s < j implies #[trigger] p[s] == t[i + 1 - j + s] by {
                        assert(p[s] == p[m - j + s]);
                        assert(p[m - j + s] == t[i + 1 - m + (m - j + s)]);
                    }
                }
                assert forall|k: int| k < m && suffix_match(t, p, stop, k) implies k <= j by {
                    if k >= 0 {
                        assert(is_border(p, m as int, k)) by {
                            assert forall|s: int| 0 <= s < k implies #[trigger] p[s] == p[m - k
                                + s] by {
                                assert(p[s] == t[i + 1 - k + s]);
                                assert(p[m - k + s] == t[i + 1 - m + (m - k + s)]);
                            }
                        }
                    }
                }
            }
        }
        i += 1;
    }
    proof {
        assert forall|at: int| 0 <= at < n && matches_at(t, p, at) implies exists|a: int|
            0 <= a < matches@.len() && #[trigger] matches@[a] == at by {
            assert(at < n - m + 1);
        }
    }
    matches
}

/// The whole pattern ends before `stop` exactly where it occurs `m` bytes
/// before; where it does not, no occurrence starts there.
proof fn lemma_window(text: Seq<u8>, pattern: Seq<u8>, stop: int, j: int)
    requires
        0 < stop <= text.len(),
        0 < pattern.len(),
        j <= pattern.len(),
        suffix_match(text, pattern, stop, j),
        forall|k: int| k <= pattern.len() && suffix_match(text, pattern, stop, k) ==> k <= j,
    ensures
        j == pattern.len() ==> matches_at(text, pattern, stop - pattern.len()),
        j < pattern.len() ==> !matches_at(text, pattern, stop - pattern.len()),
{
    let m = pattern.len() as int;
    let at = stop - m;
    if j == m {
        assert forall|s: int| 0 <= s < m implies #[trigger] text[at + s] == pattern[s] by {
            assert(pattern[s] == text[stop - m + s]);
        }
    } else if matches_at(text, pattern, at) {
        assert(suffix_match(text, pattern, stop, m)) by {
            assert forall|s: int| 0 <= s < m implies #[trigger] pattern[s] == text[stop - m
                + s] by {
                assert(text[at + s] == pattern[s]);
            }
        }
    }
}

/// Whether the `len` bytes of `s` from index `at` on are its first `len`
/// bytes.
pub open spec fn common_prefix(s: Seq<u8>, at: int, len: int) -> bool {
    &&& 0 <= len
    &&& 0 <= at
    &&& at + len <= s.len()
    &&& forall|t: int| 0 <= t < len ==> #[trigger] s[t] == s[at + t]
}

/// Whether `len` is the length of the longest piece of `s` from index `at`
/// on that also begins `s`.
pub open spec fn is_z_value(s: Seq<u8>, at: int, len: int) -> bool {
    &&& common_prefix(s, at, len)
    &&& at + len == s.len() || s[len] != s[at + len]
}

/// Whether `z` holds for every index of `s` but the first the length of
/// the longest piece from there on that also begins `s`, and for the first
/// the length of `s`.
pub open spec fn is_z_array(s: Seq<u8>, z: Seq<usize>) -> bool {
    &&& z.len() == s.len()
    &&& s.len() > 0 ==> z[0] == s.len()
    &&& forall|i: int| 1 <= i < s.len() ==> is_z_value(s, i, #[trigger] z[i] as int)
}

/// For every index of `s` the length of the longest piece from there on
/// that also begins `s`; for the first index the length of `s`.
pub fn z_algorithm(s: &str) -> (z: Vec<usize>)
    ensures
        is_z_array(s.spec_bytes(), z@),
{
    z_array(s.as_bytes())
}

/// What is known of the window `[left, right]` that reaches farthest to
/// the right among the pieces found: it repeats the beginning of `s`.
pub open spec fn window_ok(s: Seq<u8>, left: int, right: int, next: int) -> bool {
    &&& 0 <= left <= right + 1
    &&& right < s.len()
    &&& left < next
    &&& next <= right ==> 1 <= left
    &&& common_prefix(s, left, right - left + 1)
}

/// Inside the window a piece repeats what was found at the matching index
/// near the beginning, as far as the window reaches.
proof fn lemma_window_copy(s: Seq<u8>, left: int, right: int, i: int, known: int, len: int)
    requires
        window_ok(s, left, right, i),
        left < i <= right,
        is_z_value(s, i - left, known),
        len == if right - i + 1 <= known {
            right - i + 1
        } else {
            known
        },
    ensures
        common_prefix(s, i, len),
{
    let k = i - left;
    assert forall|t: int| 0 <= t < len implies #[trigger] s[t] == s[i + t] by {
        assert(s[k + t] == s[left + (k + t)]);
        assert(s[t] == s[k + t]);
    }
}

/// The Z-array of a string given as bytes.
#[verifier::rlimit(40)]
fn z_array(s: &[u8]) -> (z: Vec<usize>)
    ensures
        is_z_array(s@, z@),
{
    let n = s.len();
    let ghost bytes = s@;
    let mut z: Vec<usize> = vec![0usize; n];
    if n == 0 {
        return z;
    }
    z.set(0, n);
    let mut l: usize = 0;
    let mut r: usize = 0;
    let mut i: usize = 1;
    proof {
        assert(common_prefix(bytes, 0, 1));
    }
    while i < n
        invariant
            bytes == s@,
            n == bytes.len(),
            z@.len() == n,
            z@[0] == n,
            1 <= i <= n,
            window_ok(bytes, l as int, r as int, i as int),
            forall|k: int| 1 <= k < i ==> is_z_value(bytes, k, #[trigger] z@[k] as int),
        decreases n - i,
    {
        let mut len: usize = 0;
        if i <= r {
            let known = z[i - l];
            proof {
                assert(is_z_value(bytes, i - l, z@[i - l] as int));
                lemma_window_copy(
                    bytes,
                    l as int,
                    r as int,
                    i as int,
                    known as int,
                    if r - i + 1 <= known {
                        r - i + 1
                    } else {
                        known as int
                    },
                );
            }
            len = if r - i + 1 <= known {
                r - i + 1
            } else {
                known
            };
        }
        while i + len < n && s[len] == s[i + len]
            invariant
                bytes == s@,
                n == bytes.len(),
                1 <= i < n,
                common_prefix(bytes, i as int, len as int),
            decreases n - len,
        {
            len += 1;
        }
        z.set(i, len);
        if i + len - 1 > r {
            l = i;
            r = i + len - 1;
        }
        i += 1;
    }
    z
}

/// `pattern`, a dollar sign and `text` in a row.
pub open spec fn dollar_joined(pattern: Seq<u8>, text: Seq<u8>) -> Seq<u8> {
    pattern + seq![36u8] + text
}

/// Whether `found` lists, in ascending order, the indices of `text` from
/// which on exactly `pattern` is repeated, seen in `pattern`, a dollar
/// sign and `text` in a row.
pub open spec fn lists_z_matches(text: Seq<u8>, pattern: Seq<u8>, found: Seq<usize>, bound: int) -> bool {
    &&& forall|a: int, b: int| 0 <= a < b < found.len() ==> found[a] < found[b]
    &&& forall|a: int|
        0 <= a < found.len() ==> (#[trigger] found[a]) < bound && is_z_value(
            dollar_joined(pattern, text),
            pattern.len() + 1 + found[a],
            pattern.len() as int,
        )
    &&& forall|at: int|
        0 <= at < bound && #[trigger] is_z_value(
            dollar_joined(pattern, text),
            pattern.len() + 1 + at,
            pattern.len() as int,
        ) ==> exists|a: int| 0 <= a < found.len() && #[trigger] found[a] == at
}

/// An index that the Z-array of the joined bytes marks is an occurrence
/// of `pattern` in `text`; an occurrence is marked unless a dollar sign
/// follows it in `text`.
pub proof fn lemma_z_match(text: Seq<u8>, pattern: Seq<u8>, at: int)
    requires
        0 <= at < text.len(),
    ensures
        is_z_value(dollar_joined(pattern, text), pattern.len() + 1 + at, pattern.len() as int)
            ==> matches_at(text, pattern, at),
        matches_at(text, pattern, at) && (at + pattern.len() == text.len() || text[at
            + pattern.len()] != 36) ==> is_z_value(
            dollar_joined(pattern, text),
            pattern.len() + 1 + at,
            pattern.len() as int,
        ),
{
    let joined = dollar_joined(pattern, text);
    let m = pattern.len() as int;
    let from = m + 1 + at;
    if is_z_value(joined, from, m) {
        assert forall|t: int| 0 <= t < m implies #[trigger] text[at + t] == pattern[t] by {
            assert(joined[t] == joined[from + t]);
        }
    }
    if matches_at(text, pattern, at) && (at + m == text.len() || text[at + m] != 36) {
        assert forall|t: int| 0 <= t < m implies #[trigger] joined[t] == joined[from + t] by {
            assert(text[at + t] == pattern[t]);
        }
        if from + m < joined.len() {
            assert(joined[m] == 36);
            assert(joined[from + m] == text[at + m]);
        }
    }
}

/// The indices of `text` from which on exactly `pattern` is repeated, in
/// ascending order, found with the Z-array of `pattern`, a dollar sign and
/// `text` in a row. Each is an occurrence of `pattern`; an occurrence
/// that a dollar sign follows may be left out. An empty pattern occurs
/// nowhere.
#[verifier::rlimit(40)]
pub fn z_search(text: &str, pattern: &str) -> (found: Vec<usize>)
    requires
        text.spec_bytes().len() + pattern.spec_bytes().len() + 1 <= usize::MAX,
    ensures
        pattern.spec_bytes().len() == 0 ==> found@.len() == 0,
        pattern.spec_bytes().len() > 0 ==> lists_z_matches(
            text.spec_bytes(),
            pattern.spec_bytes(),
            found@,
            text.spec_bytes().len() as int,
        ),
{
    let pattern_bytes = pattern.as_bytes();
    let text_bytes = text.as_bytes();
    let pattern_len = pattern_bytes.len();
    if pattern_len == 0 {
        return Vec::new();
    }
    let ghost t = text_bytes@;
    let ghost p = pattern_bytes@;
    let mut combined: Vec<u8> = Vec::new();
    combined.extend_from_slice(pattern_bytes);
    combined.push(36u8);
    combined.extend_from_slice(text_bytes);
    proof {
        assert(combined@ =~= dollar_joined(p, t));
    }
    let z = z_array(combined.as_slice());
    let mut matches: Vec<usize> = Vec::new();
    let mut i: usize = pattern_len + 1;
    while i < z.len()
        invariant
            t == text_bytes@,
            p == pattern_bytes@,
            pattern_len == p.len(),
            pattern_len > 0,
            combined@ == dollar_joined(p, t),
            is_z_array(combined@, z@),
            z@.len() == p.len() + 1 + t.len(),
            pattern_len + 1 <= i <= z@.len(),
            lists_z_matches(t, p, matches@, i - pattern_len - 1),
        decreases z@.len() - i,
    {
        let ghost before = matches@;
        let ghost at = i - pattern_len - 1;
        proof {
            assert(is_z_value(combined@, i as int, z@[i as int] as int));
            assert(pattern_len + 1 + at == i);
        }
        if z[i] == pattern_len {
            matches.push(i - pattern_len - 1);
            proof {
                assert(matches@[before.len() as int] == at);
                assert forall|a: int| 0 <= a < matches@.len() implies (#[trigger] matches@[a]) < at
                    + 1 && is_z_value(
                    dollar_joined(p, t),
                    p.len() + 1 + matches@[a],
                    p.len() as int,
                ) by {
                    if a < before.len() {
                        assert(matches@[a] == before[a]);
                    }
                }
                assert forall|other: int|
                    0 <= other < at + 1 && #[trigger] is_z_value(
                        dollar_joined(p, t),
                        p.len() + 1 + other,
                        p.len() as int,
                    ) implies exists|a: int| 0 <= a < matches@.len() && #[trigger] matches@[a]
                    == other by {
                    if other < at {
                        let a = choose|a: int| 0 <= a < before.len() && #[trigger] before[a] == other;
                        assert(matches@[a] == other);
                    }
                }
            }
        } else {
            proof {
                assert forall|other: int|
                    0 <= other < at + 1 && #[trigger] is_z_value(
                        dollar_joined(p, t),
                        p.len() + 1 + other,
                        p.len() as int,
                    ) implies exists|a: int| 0 <= a < matches@.len() && #[trigger] matches@[a]
                    == other by {
                    if other == at {
                        lemma_z_unique(combined@, i as int, z@[i as int] as int, p.len() as int);
                    }
                }
            }
        }
        i += 1;
    }
    matches
}

/// The longest repeated piece from an index on has one length.
proof fn lemma_z_unique(s: Seq<u8>, at: int, a: int, b: int)
    requires
        is_z_value(s, at, a),
        is_z_value(s, at, b),
    ensures
        a == b,
{
    if a < b {
        assert(s[a] == s[at + a]);
    }
    if b < a {
        assert(s[b] == s[at + b]);
    }
}

/// Whether the match `a` comes before the match `b`: by index in the text
/// first, by pattern where the indices are equal.
pub open spec fn match_before(a: (usize, usize), b: (usize, usize)) -> bool {
    a.1 < b.1 || (a.1 == b.1 && a.0 < b.0)
}

/// Whether the pattern number `q` of `patterns` is not empty and occurs in
/// `text` at index `at`.
pub open spec fn pattern_occurs(text: Seq<u8>, patterns: Seq<&str>, q: int, at: int) -> bool {
    &&& 0 <= q < patterns.len()
    &&& patterns[q].spec_bytes().len() > 0
    &&& matches_at(text, patterns[q].spec_bytes(), at)
}

/// Whether `found` holds the match of pattern `q` at index `at`.
pub open spec fn match_listed(found: Seq<(usize, usize)>, q: int, at: int) -> bool {
    exists|a: int| 0 <= a < found.len() && #[trigger] found[a] == (q as usize, at as usize)
}

/// Whether `found` lists the occurrences in `text` of the patterns before
/// number `bound`, and of pattern `bound` those among the first `taken` of
/// `positions`, as pairs of pattern number and index, ordered by index
/// and by pattern number where the indices are equal.
pub open spec fn lists_all_matches(
    text: Seq<u8>,
    patterns: Seq<&str>,
    found: Seq<(usize, usize)>,
    bound: int,
    positions: Seq<usize>,
    taken: int,
) -> bool {
    &&& forall|a: int, b: int|
        0 <= a < b < found.len() ==> match_before(#[trigger] found[a], #[trigger] found[b])
    &&& forall|a: int|
        0 <= a < found.len() ==> pattern_occurs(
            text,
            patterns,
            (#[trigger] found[a]).0 as int,
            found[a].1 as int,
        ) && (found[a].0 < bound || (found[a].0 == bound && exists|t: int|
            0 <= t < taken && #[trigger] positions[t] == found[a].1))
    &&& forall|q: int, at: int|
        0 <= q < bound && 0 <= at < text.len() && #[trigger] pattern_occurs(text, patterns, q, at)
            ==> match_listed(found, q, at)
    &&& forall|t: int| 0 <= t < taken ==> match_listed(found, bound, #[trigger] positions[t] as int)
}

/// The occurrences of all of `patterns` in `text`, as pairs of the number
/// of the pattern and the index in the text, ordered by index, and by the
/// number of the pattern where the indices are equal. An empty pattern
/// occurs nowhere.
#[verifier::rlimit(40)]
pub fn multi_pattern_search(text: &str, patterns: &[&str]) -> (found: Vec<(usize, usize)>)
    ensures
        lists_all_matches(
            text.spec_bytes(),
            patterns@,
            found@,
            patterns@.len() as int,
            Seq::empty(),
            0,
        ),
{
    let ghost t = text.spec_bytes();
    let ghost ps = patterns@;
    let mut matches: Vec<(usize, usize)> = Vec::new();
    let mut q: usize = 0;
    while q < patterns.len()
        invariant
            t == text.spec_bytes(),
            ps == patterns@,
            q <= ps.len(),
            lists_all_matches(t, ps, matches@, q as int, Seq::empty(), 0),
        decreases ps.len() - q,
    {
        let positions = kmp_search(text, patterns[q]);
        let ghost p = ps[q as int].spec_bytes();
        let mut j: usize = 0;
        while j < positions.len()
            invariant
                t == text.spec_bytes(),
                ps == patterns@,
                q < ps.len(),
                p == ps[q as int].spec_bytes(),
                j <= positions@.len(),
                p.len() == 0 ==> positions@.len() == 0,
                p.len() > 0 ==> lists_matches(t, p, positions@, t.len() as int),
                lists_all_matches(t, ps, matches@, q as int, positions@, j as int),
            decreases positions@.len() - j,
        {
            let pos = positions[j];
            let mut k: usize = matches.len();
            while k > 0 && matches[k - 1].1 > pos
                invariant
                    k <= matches@.len(),
                    forall|a: int| k <= a < matches@.len() ==> (#[trigger] matches@[a]).1 > pos,
                decreases k,
            {
                k -= 1;
            }
            let ghost before = matches@;
            matches.insert(k, (q, pos));
            proof {
                lemma_match_inserted(t, ps, before, q as int, positions@, j as int, k as int);
            }
            j += 1;
        }
        proof {
            lemma_pattern_done(t, ps, matches@, q as int, positions@);
        }
        q += 1;
    }
    matches
}

/// Putting the next occurrence of a pattern behind all matches at its
/// index or before keeps the list in order and adds just that match.
#[verifier::rlimit(40)]
proof fn lemma_match_inserted(
    text: Seq<u8>,
    patterns: Seq<&str>,
    before: Seq<(usize, usize)>,
    q: int,
    positions: Seq<usize>,
    taken: int,
    k: int,
)
    requires
        0 <= q < patterns.len(),
        q <= usize::MAX,
        0 <= taken < positions.len(),
        patterns[q].spec_bytes().len() > 0,
        lists_matches(text, patterns[q].spec_bytes(), positions, text.len() as int),
        lists_all_matches(text, patterns, before, q, positions, taken),
        0 <= k <= before.len(),
        forall|a: int| k <= a < before.len() ==> (#[trigger] before[a]).1 > positions[taken],
        k > 0 ==> before[k - 1].1 <= positions[taken],
    ensures
        lists_all_matches(
            text,
            patterns,
            before.insert(k, (q as usize, positions[taken])),
            q,
            positions,
            taken + 1,
        ),
{
    let pos = positions[taken];
    let entry = (q as usize, pos);
    let after = before.insert(k, entry);
    assert forall|a: int| 0 <= a < k implies match_before(#[trigger] before[a], entry) by {
        if k > 0 {
            if a < k - 1 {
                assert(match_before(before[a], before[k - 1]));
            }
            if before[a].0 == q {
                let s = choose|s: int| 0 <= s < taken && #[trigger] positions[s] == before[a].1;
                assert(positions[s] < positions[taken]);
            }
        }
    }
    assert forall|a: int, b: int| 0 <= a < b < after.len() implies match_before(
        #[trigger] after[a],
        #[trigger] after[b],
    ) by {
        let from_a = if a < k {
            a
        } else {
            a - 1
        };
        let from_b = if b < k {
            b
        } else {
            b - 1
        };
        if a != k && b != k {
            assert(after[a] == before[from_a] && after[b] == before[from_b]);
            assert(match_before(before[from_a], before[from_b]));
        } else if a == k {
            assert(after[b] == before[from_b]);
        } else {
            assert(after[a] == before[from_a]);
        }
    }
    assert forall|a: int| 0 <= a < after.len() implies pattern_occurs(
        text,
        patterns,
        (#[trigger] after[a]).0 as int,
        after[a].1 as int,
    ) && (after[a].0 < q || (after[a].0 == q && exists|s: int|
        0 <= s < taken + 1 && #[trigger] positions[s] == after[a].1)) by {
        if a == k {
            assert(positions[taken] == after[a].1);
        } else {
            let from = if a < k {
                a
            } else {
                a - 1
            };
            assert(after[a] == before[from]);
            if before[from].0 == q {
                let s = choose|s: int| 0 <= s < taken && #[trigger] positions[s] == before[from].1;
                assert(positions[s] == after[a].1);
            }
        }
    }
    assert forall|x: int, at: int|
        0 <= x < q && 0 <= at < text.len() && #[trigger] pattern_occurs(
            text,
            patterns,
            x,
            at,
        ) implies match_listed(after, x, at) by {
        assert(match_listed(before, x, at));
        let a = choose|a: int| 0 <= a < before.len() && #[trigger] before[a] == (x as usize, at as usize);
        if a < k {
            assert(after[a] == before[a]);
        } else {
            assert(after[a + 1] == before[a]);
        }
    }
    assert forall|s: int| 0 <= s < taken + 1 implies match_listed(
        after,
        q,
        #[trigger] positions[s] as int,
    ) by {
        if s < taken {
            assert(match_listed(before, q, positions[s] as int));
            let a = choose|a: int|
                0 <= a < before.len() && #[trigger] before[a] == (q as usize, positions[s]);
            if a < k {
                assert(after[a] == before[a]);
            } else {
                assert(after[a + 1] == before[a]);
            }
        } else {
            assert(after[k] == entry);
        }
    }
}

/// Once all occurrences of a pattern are in the list, the list holds the
/// occurrences of the patterns up to it.
proof fn lemma_pattern_done(
    text: Seq<u8>,
    patterns: Seq<&str>,
    found: Seq<(usize, usize)>,
    q: int,
    positions: Seq<usize>,
)
    requires
        0 <= q < patterns.len(),
        patterns[q].spec_bytes().len() == 0 ==> positions.len() == 0,
        patterns[q].spec_bytes().len() > 0 ==> lists_matches(
            text,
            patterns[q].spec_bytes(),
            positions,
            text.len() as int,
        ),
        lists_all_matches(text, patterns, found, q, positions, positions.len() as int),
    ensures
        lists_all_matches(text, patterns, found, q + 1, Seq::empty(), 0),
{
    assert forall|x: int, at: int|
        0 <= x < q + 1 && 0 <= at < text.len() && #[trigger] pattern_occurs(
            text,
            patterns,
            x,
            at,
        ) implies match_listed(found, x, at) by {
        if x == q {
            let s = choose|s: int| 0 <= s < positions.len() && #[trigger] positions[s] == at;
            assert(match_listed(found, q, positions[s] as int));
        }
    }
}

} // verus!
