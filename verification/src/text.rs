//! Byte-string utilities for the journal line grammar: ASCII whitespace
//! trimming, bounded splitting on the spaced field separator `" |"`,
//! splitting on the tag separator `','`, and decimal digit sequences.
use vstd::prelude::*;

verus! {

/// Field separator character of a journal line.
pub const SEPARATOR: u8 = 124u8;  // '|'

/// Tag separator character inside the tags field.
pub const TAG_SEPARATOR: u8 = 44u8;  // ','

pub const SPACE: u8 = 32u8;

/// ASCII whitespace, the characters removed from the ends of a field.
pub open spec fn is_space(b: u8) -> bool {
    b == 32 || b == 9 || (10 <= b <= 13)
}

pub fn is_space_exec(b: u8) -> (r: bool)
    ensures
        r == is_space(b),
{
    b == 32 || b == 9 || (10 <= b && b <= 13)
}

pub open spec fn trim_start(s: Seq<u8>) -> Seq<u8>
    decreases s.len(),
{
    if s.len() > 0 && is_space(s[0]) {
        trim_start(s.subrange(1, s.len() as int))
    } else {
        s
    }
}

pub open spec fn trim_end(s: Seq<u8>) -> Seq<u8>
    decreases s.len(),
{
    if s.len() > 0 && is_space(s.last()) {
        trim_end(s.drop_last())
    } else {
        s
    }
}

/// A field with ASCII whitespace removed from both ends.
pub open spec fn trimmed(s: Seq<u8>) -> Seq<u8> {
    trim_end(trim_start(s))
}

/// A byte string that trimming leaves unchanged: empty, or bounded by
/// non-whitespace bytes.
pub open spec fn is_trimmed(s: Seq<u8>) -> bool {
    s.len() == 0 || (!is_space(s[0]) && !is_space(s.last()))
}

pub proof fn lemma_trimmed_of_trimmed(s: Seq<u8>)
    requires
        is_trimmed(s),
    ensures
        trimmed(s) == s,
{
}

/// Return the subslice of `s` with ASCII whitespace removed from both ends.
pub fn trim_exec<'a>(s: &'a [u8]) -> (r: &'a [u8])
    ensures
        r@ == trimmed(s@),
{
    proof {
        assert(s@.subrange(0, s@.len() as int) =~= s@);
    }
    let mut a: usize = 0;
    while a < s.len() && is_space_exec(s[a])
        invariant
            0 <= a <= s@.len(),
            trim_start(s@) == trim_start(s@.subrange(a as int, s@.len() as int)),
        decreases s@.len() - a,
    {
        proof {
            let t = s@.subrange(a as int, s@.len() as int);
            assert(t.subrange(1, t.len() as int) =~= s@.subrange(a + 1, s@.len() as int));
        }
        a = a + 1;
    }
    proof {
        let t = s@.subrange(a as int, s@.len() as int);
        assert(trim_start(t) == t);
        assert(trim_start(s@) == s@.subrange(a as int, s@.len() as int));
    }
    let mut b: usize = s.len();
    while b > a && is_space_exec(s[b - 1])
        invariant
            a <= b <= s@.len(),
            trim_end(s@.subrange(a as int, s@.len() as int)) == trim_end(
                s@.subrange(a as int, b as int),
            ),
        decreases b,
    {
        proof {
            let t = s@.subrange(a as int, b as int);
            assert(t.drop_last() =~= s@.subrange(a as int, b - 1));
        }
        b = b - 1;
    }
    proof {
        let t = s@.subrange(a as int, b as int);
        assert(trim_end(t) == t);
    }
    vstd::slice::slice_subrange(s, a, b)
}

/// The spaced separator `" |"` occurs at position `i`.
pub open spec fn sep_at(s: Seq<u8>, i: int) -> bool {
    0 <= i && i + 2 <= s.len() && s[i] == SPACE && s[i + 1] == SEPARATOR
}

/// Index of the first occurrence of `" |"`, or -1 if there is none.
pub open spec fn find_sep(s: Seq<u8>) -> int
    decreases s.len(),
{
    if s.len() < 2 {
        -1
    } else if s[0] == SPACE && s[1] == SEPARATOR {
        0
    } else {
        let r = find_sep(s.subrange(1, s.len() as int));
        if r < 0 {
            -1
        } else {
            r + 1
        }
    }
}

pub proof fn lemma_find_sep(s: Seq<u8>)
    ensures
        find_sep(s) == -1 ==> forall|i: int| !sep_at(s, i),
        find_sep(s) >= 0 ==> sep_at(s, find_sep(s)) && (forall|i: int|
            0 <= i < find_sep(s) ==> !sep_at(s, i)),
        find_sep(s) >= 0 ==> find_sep(s) + 2 <= s.len(),
    decreases s.len(),
{
    if s.len() < 2 {
        assert forall|i: int| !sep_at(s, i) by {};
    } else if s[0] == SPACE && s[1] == SEPARATOR {
    } else {
        let t = s.subrange(1, s.len() as int);
        lemma_find_sep(t);
        assert forall|i: int| 1 <= i implies sep_at(s, i) == sep_at(t, i - 1) by {
            if i + 2 <= s.len() {
                assert(t[i - 1] == s[i]);
                if i + 2 <= s.len() && i + 1 < s.len() {
                    assert(t[i] == s[i + 1]);
                }
            }
        }
        assert(!sep_at(s, 0));
        if find_sep(t) == -1 {
            assert forall|i: int| !sep_at(s, i) by {
                if i >= 1 {
                    assert(sep_at(s, i) == sep_at(t, i - 1));
                }
            }
        }
    }
}

/// Find the first `" |"` in `s`, if any.
pub fn find_sep_exec(s: &[u8]) -> (r: Option<usize>)
    ensures
        match r {
            Some(i) => i == find_sep(s@) && sep_at(s@, i as int),
            None => find_sep(s@) == -1,
        },
{
    proof {
        lemma_find_sep(s@);
    }
    if s.len() < 2 {
        return None;
    }
    let mut i: usize = 0;
    while i < s.len() - 1
        invariant
            2 <= s@.len(),
            0 <= i <= s@.len(),
            forall|j: int| 0 <= j < i ==> !sep_at(s@, j),
        decreases s@.len() - i,
    {
        if s[i] == SPACE && s[i + 1] == SEPARATOR {
            proof {
                lemma_find_sep(s@);
                let r = find_sep(s@);
                if r == -1 {
                    assert(sep_at(s@, i as int));
                } else if r < i {
                    assert(!sep_at(s@, r));
                } else if r > i {
                    assert(!sep_at(s@, i as int));
                }
            }
            return Some(i);
        }
        i = i + 1;
    }
    proof {
        lemma_find_sep(s@);
        let r = find_sep(s@);
        if r >= 0 {
            assert(!sep_at(s@, r));
        }
    }
    None
}

/// Split `s` on `" |"` into at most `n` parts; the final part keeps any
/// further separators verbatim.
pub open spec fn splitn_sep(s: Seq<u8>, n: nat) -> Seq<Seq<u8>>
    decreases n,
{
    if n <= 1 {
        seq![s]
    } else {
        let i = find_sep(s);
        if i < 0 {
            seq![s]
        } else {
            seq![s.subrange(0, i)] + splitn_sep(s.subrange(i + 2, s.len() as int), (n - 1) as nat)
        }
    }
}

pub proof fn lemma_splitn_sep_len(s: Seq<u8>, n: nat)
    requires
        n >= 1,
    ensures
        1 <= splitn_sep(s, n).len() <= n,
    decreases n,
{
    if n > 1 {
        let i = find_sep(s);
        if i >= 0 {
            lemma_splitn_sep_len(s.subrange(i + 2, s.len() as int), (n - 1) as nat)
        }
    }
}

/// Split `s` on `" |"` into at most four parts, as executable code.
pub fn splitn_sep_exec(s: &[u8], n: usize) -> (parts: Vec<Vec<u8>>)
    requires
        n >= 1,
    ensures
        parts.deep_view() == splitn_sep(s@, n as nat),
    decreases n,
{
    if n == 1 {
        let mut parts: Vec<Vec<u8>> = Vec::new();
        parts.push(vstd::slice::slice_to_vec(s));
        proof {
            assert(parts.deep_view() =~~= splitn_sep(s@, n as nat));
        }
        return parts;
    }
    match find_sep_exec(s) {
        None => {
            let mut parts: Vec<Vec<u8>> = Vec::new();
            parts.push(vstd::slice::slice_to_vec(s));
            proof {
                assert(parts.deep_view() =~~= splitn_sep(s@, n as nat));
            }
            parts
        },
        Some(i) => {
            let slen = s.len();
            let head = vstd::slice::slice_to_vec(vstd::slice::slice_subrange(s, 0, i));
            let rest = vstd::slice::slice_subrange(s, i + 2, slen);
            let ghost first_part = s@.subrange(0, find_sep(s@));
            let ghost head_dv = head.deep_view();
            let mut parts: Vec<Vec<u8>> = Vec::new();
            parts.push(head);
            let tail_parts = splitn_sep_exec(rest, n - 1);
            proof {
                assert(head_dv =~= first_part);
            }
            let mut k: usize = 0;
            while k < tail_parts.len()
                invariant
                    0 <= k <= tail_parts@.len(),
                    parts.deep_view() =~~= seq![first_part] + tail_parts.deep_view().subrange(0, k as int),
                decreases tail_parts@.len() - k,
            {
                let ghost prev = parts@;
                let ghost prev_dv = parts.deep_view();
                let p = tail_parts[k].clone();
                proof {
                    assert(p.deep_view() == tail_parts.deep_view()[k as int]);
                }
                parts.push(p);
                proof {
                    let a_part = seq![first_part];
                    let t_parts = tail_parts.deep_view();
                    let rhs = a_part + t_parts.subrange(0, k + 1);
                    assert(parts@ == prev.push(p));
                    assert(parts@.len() == prev.len() + 1);
                    assert(parts.deep_view().len() == parts@.len());
                    assert(prev_dv.len() == prev.len());
                    assert(prev_dv == seq![first_part] + t_parts.subrange(0, k as int));
                    assert(t_parts.subrange(0, k as int).len() == k as int);
                    assert(prev_dv.len() == 1 + k);
                    assert(t_parts.subrange(0, k + 1).len() == k + 1);
                    assert(parts.deep_view().len() == rhs.len());
                    assert forall|j: int| 0 <= j < rhs.len() implies parts.deep_view()[j]
                        == rhs[j] by {
                        if j < prev.len() {
                            assert(parts@[j] == prev[j]);
                            assert(parts.deep_view()[j] == prev_dv[j]);
                            assert(prev_dv[j] == (a_part + t_parts.subrange(0, k as int))[j]);
                        } else {
                            assert(parts@[j] == p);
                            assert(parts.deep_view()[j] == p.deep_view());
                            assert(rhs[j] == t_parts[k as int]);
                        }
                    }
                    assert(parts.deep_view() =~= rhs);
                }
                k = k + 1;
            }
            proof {
                assert(tail_parts.deep_view().subrange(0, tail_parts.deep_view().len() as int)
                    =~~= tail_parts.deep_view());
                assert(parts.deep_view() =~~= splitn_sep(s@, n as nat));
            }
            parts
        },
    }
}

/// Index of the first `','` in `s`, or -1 if there is none.
pub open spec fn find_comma(s: Seq<u8>) -> int
    decreases s.len(),
{
    if s.len() == 0 {
        -1
    } else if s[0] == TAG_SEPARATOR {
        0
    } else {
        let r = find_comma(s.subrange(1, s.len() as int));
        if r < 0 {
            -1
        } else {
            r + 1
        }
    }
}

pub proof fn lemma_find_comma(s: Seq<u8>)
    ensures
        find_comma(s) == -1 ==> forall|i: int| 0 <= i < s.len() ==> s[i] != TAG_SEPARATOR,
        find_comma(s) >= 0 ==> find_comma(s) < s.len() && s[find_comma(s)] == TAG_SEPARATOR && (
        forall|i: int| 0 <= i < find_comma(s) ==> s[i] != TAG_SEPARATOR),
    decreases s.len(),
{
    if s.len() == 0 {
    } else if s[0] == TAG_SEPARATOR {
    } else {
        let t = s.subrange(1, s.len() as int);
        lemma_find_comma(t);
        assert(forall|i: int| 1 <= i < s.len() ==> s[i] == t[i - 1]);
    }
}

/// Split `s` on every `','`; `n` commas give `n + 1` parts.
pub open spec fn split_commas(s: Seq<u8>) -> Seq<Seq<u8>>
    decreases s.len(),
        via split_commas_decreases
{
    let i = find_comma(s);
    if i < 0 {
        seq![s]
    } else {
        seq![s.subrange(0, i)] + split_commas(s.subrange(i + 1, s.len() as int))
    }
}

#[via_fn]
proof fn split_commas_decreases(s: Seq<u8>) {
    lemma_find_comma(s);
}

/// Split on `','`, as executable code.
pub fn split_commas_exec(s: &[u8]) -> (parts: Vec<Vec<u8>>)
    ensures
        parts.deep_view() == split_commas(s@),
    decreases s@.len(),
{
    proof {
        lemma_find_comma(s@);
    }
    let mut i: usize = 0;
    let mut found: bool = false;
    while i < s.len() && !found
        invariant
            0 <= i <= s@.len(),
            !found ==> forall|j: int| 0 <= j < i ==> s@[j] != TAG_SEPARATOR,
            found ==> 0 < i <= s@.len() && s@[i - 1] == TAG_SEPARATOR && (forall|j: int|
                0 <= j < i - 1 ==> s@[j] != TAG_SEPARATOR),
        decreases s@.len() - i,
    {
        if s[i] == TAG_SEPARATOR {
            found = true;
        }
        i = i + 1;
    }
    if !found {
        proof {
            lemma_find_comma(s@);
            let r = find_comma(s@);
            if r >= 0 {
                assert(s@[r] != TAG_SEPARATOR);
            }
        }
        let mut parts: Vec<Vec<u8>> = Vec::new();
        parts.push(vstd::slice::slice_to_vec(s));
        proof {
            assert(parts.deep_view() =~~= split_commas(s@));
        }
        parts
    } else {
        let c = i - 1;
        proof {
            lemma_find_comma(s@);
            let r = find_comma(s@);
            if r < c {
                assert(s@[r] != TAG_SEPARATOR);
            } else if r > c || r == -1 {
                assert(s@[c as int] != TAG_SEPARATOR);
            }
            assert(r == c);
        }
        let slen = s.len();
        let head = vstd::slice::slice_to_vec(vstd::slice::slice_subrange(s, 0, c));
        let rest = vstd::slice::slice_subrange(s, c + 1, slen);
        let ghost first_part = s@.subrange(0, find_comma(s@));
        let ghost head_dv = head.deep_view();
        let mut parts: Vec<Vec<u8>> = Vec::new();
        parts.push(head);
        let tail_parts = split_commas_exec(rest);
        proof {
            assert(head_dv =~= first_part);
        }
        let mut k: usize = 0;
        while k < tail_parts.len()
            invariant
                0 <= k <= tail_parts@.len(),
                parts.deep_view() =~~= seq![first_part]
                    + tail_parts.deep_view().subrange(0, k as int),
            decreases tail_parts@.len() - k,
        {
            let ghost prev = parts@;
            let ghost prev_dv = parts.deep_view();
            let p = tail_parts[k].clone();
            proof {
                assert(p.deep_view() == tail_parts.deep_view()[k as int]);
            }
            parts.push(p);
            proof {
                let a_part = seq![first_part];
                let t_parts = tail_parts.deep_view();
                let rhs = a_part + t_parts.subrange(0, k + 1);
                assert(parts@ == prev.push(p));
                assert(parts@.len() == prev.len() + 1);
                assert(parts.deep_view().len() == parts@.len());
                assert(prev_dv.len() == prev.len());
                assert(prev_dv == seq![first_part] + t_parts.subrange(0, k as int));
                assert(t_parts.subrange(0, k as int).len() == k as int);
                assert(prev_dv.len() == 1 + k);
                assert(t_parts.subrange(0, k + 1).len() == k + 1);
                assert(parts.deep_view().len() == rhs.len());
                assert forall|j: int| 0 <= j < rhs.len() implies parts.deep_view()[j]
                    == rhs[j] by {
                    if j < prev.len() {
                        assert(parts@[j] == prev[j]);
                        assert(parts.deep_view()[j] == prev_dv[j]);
                        assert(prev_dv[j] == (a_part + t_parts.subrange(0, k as int))[j]);
                    } else {
                        assert(parts@[j] == p);
                        assert(parts.deep_view()[j] == p.deep_view());
                        assert(rhs[j] == t_parts[k as int]);
                    }
                }
                assert(parts.deep_view() =~= rhs);
            }
            k = k + 1;
        }
        proof {
            assert(tail_parts.deep_view().subrange(0, tail_parts.deep_view().len() as int)
                =~= tail_parts.deep_view());
            assert(parts.deep_view() =~~= split_commas(s@));
        }
        parts
    }
}

/// ASCII decimal digit.
pub open spec fn is_digit(b: u8) -> bool {
    48 <= b <= 57
}

pub open spec fn all_digits(s: Seq<u8>) -> bool {
    forall|i: int| 0 <= i < s.len() ==> is_digit(#[trigger] s[i])
}

/// Numeric value of a sequence of decimal digits, most significant first.
pub open spec fn digits_val(s: Seq<u8>) -> int
    decreases s.len(),
{
    if s.len() == 0 {
        0
    } else {
        digits_val(s.drop_last()) * 10 + (s.last() - 48)
    }
}

pub proof fn lemma_digits_val_nonneg(s: Seq<u8>)
    requires
        all_digits(s),
    ensures
        digits_val(s) >= 0,
    decreases s.len(),
{
    if s.len() > 0 {
        assert(all_digits(s.drop_last())) by {
            assert(forall|i: int| 0 <= i < s.len() - 1 ==> s.drop_last()[i] == s[i]);
        }
        lemma_digits_val_nonneg(s.drop_last());
    }
}

/// Byte-wise lexicographic order (shorter prefixes first), the order in
/// which tags are serialized.
pub open spec fn bytes_le(a: Seq<u8>, b: Seq<u8>) -> bool
    decreases a.len(),
{
    if a.len() == 0 {
        true
    } else if b.len() == 0 {
        false
    } else if a[0] < b[0] {
        true
    } else if a[0] > b[0] {
        false
    } else {
        bytes_le(a.subrange(1, a.len() as int), b.subrange(1, b.len() as int))
    }
}

pub fn bytes_le_exec(a: &[u8], b: &[u8]) -> (r: bool)
    ensures
        r == bytes_le(a@, b@),
{
    proof {
        assert(a@.subrange(0, a@.len() as int) =~= a@);
        assert(b@.subrange(0, b@.len() as int) =~= b@);
    }
    let mut i: usize = 0;
    while i < a.len() && i < b.len()
        invariant
            0 <= i <= a@.len(),
            0 <= i <= b@.len(),
            bytes_le(a@, b@) == bytes_le(
                a@.subrange(i as int, a@.len() as int),
                b@.subrange(i as int, b@.len() as int),
            ),
        decreases a@.len() - i,
    {
        let x = a[i];
        let y = b[i];
        proof {
            let ta = a@.subrange(i as int, a@.len() as int);
            let tb = b@.subrange(i as int, b@.len() as int);
            assert(ta[0] == x && tb[0] == y);
            if x == y {
                assert(ta.subrange(1, ta.len() as int) =~= a@.subrange(i + 1, a@.len() as int));
                assert(tb.subrange(1, tb.len() as int) =~= b@.subrange(i + 1, b@.len() as int));
            }
        }
        if x < y {
            return true;
        }
        if x > y {
            return false;
        }
        i = i + 1;
    }
    proof {
        let ta = a@.subrange(i as int, a@.len() as int);
        let tb = b@.subrange(i as int, b@.len() as int);
        if i == a@.len() {
            assert(ta.len() == 0);
        } else {
            assert(tb.len() == 0 && ta.len() > 0);
        }
    }
    i == a.len()
}

pub fn bytes_eq_exec(a: &[u8], b: &[u8]) -> (r: bool)
    ensures
        r == (a@ == b@),
{
    if a.len() != b.len() {
        return false;
    }
    let mut i: usize = 0;
    while i < a.len()
        invariant
            0 <= i <= a@.len(),
            a@.len() == b@.len(),
            forall|j: int| 0 <= j < i ==> a@[j] == b@[j],
        decreases a@.len() - i,
    {
        if a[i] != b[i] {
            return false;
        }
        i = i + 1;
    }
    proof {
        assert(a@ =~= b@);
    }
    true
}

/// Is the byte string `x` one of the elements of `v`?
pub fn contains_bytes_exec(v: &Vec<Vec<u8>>, x: &[u8]) -> (r: bool)
    ensures
        r == v.deep_view().contains(x@),
{
    let mut i: usize = 0;
    while i < v.len()
        invariant
            0 <= i <= v@.len(),
            forall|j: int| 0 <= j < i ==> v.deep_view()[j] != x@,
        decreases v@.len() - i,
    {
        let hit = bytes_eq_exec(v[i].as_slice(), x);
        proof {
            assert(v.deep_view()[i as int] =~= v@[i as int]@);
        }
        if hit {
            return true;
        }
        i = i + 1;
    }
    proof {
        if v.deep_view().contains(x@) {
            let j = choose|j: int| 0 <= j < v.deep_view().len() && v.deep_view()[j] == x@;
            assert(v.deep_view()[j] != x@);
        }
    }
    false
}

/// Insert `x` into `s` before the first element it precedes or equals.
pub open spec fn insert_sorted(x: Seq<u8>, s: Seq<Seq<u8>>) -> Seq<Seq<u8>>
    decreases s.len(),
{
    if s.len() == 0 {
        seq![x]
    } else if bytes_le(x, s[0]) {
        seq![x] + s
    } else {
        seq![s[0]] + insert_sorted(x, s.subrange(1, s.len() as int))
    }
}

/// Insertion sort by `bytes_le`, the serialization order of tags.
pub open spec fn sort_tags(s: Seq<Seq<u8>>) -> Seq<Seq<u8>>
    decreases s.len(),
{
    if s.len() == 0 {
        s
    } else {
        insert_sorted(s[0], sort_tags(s.subrange(1, s.len() as int)))
    }
}

pub proof fn lemma_insert_sorted_contains(x: Seq<u8>, s: Seq<Seq<u8>>, y: Seq<u8>)
    ensures
        insert_sorted(x, s).contains(y) <==> (y == x || s.contains(y)),
        insert_sorted(x, s).len() == s.len() + 1,
    decreases s.len(),
{
    if s.len() == 0 {
        assert(insert_sorted(x, s) =~= seq![x]);
        if insert_sorted(x, s).contains(y) {
            let j = choose|j: int| 0 <= j < 1 && insert_sorted(x, s)[j] == y;
            assert(y == x);
        }
        if y == x {
            assert(insert_sorted(x, s)[0] == y);
        }
        if s.contains(y) {
            let j = choose|j: int| 0 <= j < s.len() && s[j] == y;
        }
    } else if bytes_le(x, s[0]) {
        let r = seq![x] + s;
        if r.contains(y) {
            let j = choose|j: int| 0 <= j < r.len() && r[j] == y;
            if j == 0 {
                assert(y == x);
            } else {
                assert(s[j - 1] == y);
            }
        }
        if y == x {
            assert(r[0] == y);
        }
        if s.contains(y) {
            let j = choose|j: int| 0 <= j < s.len() && s[j] == y;
            assert(r[j + 1] == y);
        }
    } else {
        let t = s.subrange(1, s.len() as int);
        lemma_insert_sorted_contains(x, t, y);
        let rec = insert_sorted(x, t);
        let r = seq![s[0]] + rec;
        if r.contains(y) {
            let j = choose|j: int| 0 <= j < r.len() && r[j] == y;
            if j == 0 {
                assert(s[0] == y);
            } else {
                assert(rec[j - 1] == y);
                assert(rec.contains(y));
            }
        }
        if y == x || s.contains(y) {
            if y == x {
                assert(rec.contains(y));
                let j = choose|j: int| 0 <= j < rec.len() && rec[j] == y;
                assert(r[j + 1] == y);
            } else {
                let j = choose|j: int| 0 <= j < s.len() && s[j] == y;
                if j == 0 {
                    assert(r[0] == y);
                } else {
                    assert(t[j - 1] == y);
                    assert(t.contains(y));
                    assert(rec.contains(y));
                    let k = choose|k: int| 0 <= k < rec.len() && rec[k] == y;
                    assert(r[k + 1] == y);
                }
            }
        }
    }
}

pub proof fn lemma_sort_tags_contains(s: Seq<Seq<u8>>, y: Seq<u8>)
    ensures
        sort_tags(s).contains(y) <==> s.contains(y),
        sort_tags(s).len() == s.len(),
    decreases s.len(),
{
    if s.len() > 0 {
        let t = s.subrange(1, s.len() as int);
        lemma_sort_tags_contains(t, y);
        lemma_insert_sorted_contains(s[0], sort_tags(t), y);
        if s.contains(y) {
            let j = choose|j: int| 0 <= j < s.len() && s[j] == y;
            if j > 0 {
                assert(t[j - 1] == y);
                assert(t.contains(y));
            }
        }
        if t.contains(y) {
            let j = choose|j: int| 0 <= j < t.len() && t[j] == y;
            assert(s[j + 1] == y);
        }
    } else {
        if s.contains(y) {
            let j = choose|j: int| 0 <= j < s.len() && s[j] == y;
        }
    }
}

pub proof fn lemma_insert_sorted_nodup(x: Seq<u8>, s: Seq<Seq<u8>>)
    requires
        s.no_duplicates(),
        !s.contains(x),
    ensures
        insert_sorted(x, s).no_duplicates(),
    decreases s.len(),
{
    if s.len() == 0 {
    } else if bytes_le(x, s[0]) {
        let r = seq![x] + s;
        assert forall|i: int, j: int|
            0 <= i < r.len() && 0 <= j < r.len() && i != j implies r[i] != r[j] by {
            if i == 0 && j > 0 {
                if r[j] == x {
                    assert(s[j - 1] == x);
                    assert(s.contains(x));
                }
            } else if j == 0 && i > 0 {
                if r[i] == x {
                    assert(s[i - 1] == x);
                    assert(s.contains(x));
                }
            } else if i > 0 && j > 0 {
                assert(r[i] == s[i - 1] && r[j] == s[j - 1]);
            }
        }
    } else {
        let t = s.subrange(1, s.len() as int);
        assert(t.no_duplicates());
        if t.contains(x) {
            let j = choose|j: int| 0 <= j < t.len() && t[j] == x;
            assert(s[j + 1] == x);
            assert(s.contains(x));
        }
        lemma_insert_sorted_nodup(x, t);
        let rec = insert_sorted(x, t);
        let r = seq![s[0]] + rec;
        assert forall|i: int, j: int|
            0 <= i < r.len() && 0 <= j < r.len() && i != j implies r[i] != r[j] by {
            lemma_insert_sorted_contains(x, t, s[0]);
            if i == 0 && j > 0 {
                if r[j] == s[0] {
                    assert(rec[j - 1] == s[0]);
                    assert(rec.contains(s[0]));
                    if s[0] == x {
                        assert(s.contains(x));
                    } else {
                        assert(t.contains(s[0]));
                        let k = choose|k: int| 0 <= k < t.len() && t[k] == s[0];
                        assert(s[k + 1] == s[0]);
                    }
                }
            } else if j == 0 && i > 0 {
                if r[i] == s[0] {
                    assert(rec[i - 1] == s[0]);
                    assert(rec.contains(s[0]));
                    if s[0] == x {
                        assert(s.contains(x));
                    } else {
                        assert(t.contains(s[0]));
                        let k = choose|k: int| 0 <= k < t.len() && t[k] == s[0];
                        assert(s[k + 1] == s[0]);
                    }
                }
            } else if i > 0 && j > 0 {
                assert(r[i] == rec[i - 1] && r[j] == rec[j - 1]);
            }
        }
    }
}

pub proof fn lemma_sort_tags_nodup(s: Seq<Seq<u8>>)
    requires
        s.no_duplicates(),
    ensures
        sort_tags(s).no_duplicates(),
    decreases s.len(),
{
    if s.len() > 0 {
        let t = s.subrange(1, s.len() as int);
        assert(t.no_duplicates());
        lemma_sort_tags_nodup(t);
        lemma_sort_tags_contains(t, s[0]);
        if t.contains(s[0]) {
            let j = choose|j: int| 0 <= j < t.len() && t[j] == s[0];
            assert(s[j + 1] == s[0]);
        }
        lemma_insert_sorted_nodup(s[0], sort_tags(t));
    }
}

/// Insert one tag into an already sorted vector, as executable code.
fn insert_sorted_exec(x: Vec<u8>, s: Vec<Vec<u8>>) -> (r: Vec<Vec<u8>>)
    ensures
        r.deep_view() == insert_sorted(x@, s.deep_view()),
{
    let ghost x_dv = x@;
    let ghost s_dv = s.deep_view();
    let mut out = s;
    let mut p: usize = 0;
    while p < out.len() && !bytes_le_exec(x.as_slice(), out[p].as_slice())
        invariant
            0 <= p <= out@.len(),
            out.deep_view() == s_dv,
            x@ == x_dv,
            forall|j: int| 0 <= j < p ==> !bytes_le(x_dv, s_dv[j]),
        decreases out@.len() - p,
    {
        proof {
            assert(out.deep_view()[p as int] == out@[p as int]@);
        }
        p = p + 1;
    }
    proof {
        if p < out@.len() {
            assert(out.deep_view()[p as int] == out@[p as int]@);
            assert(bytes_le(x_dv, s_dv[p as int]));
        }
        lemma_insert_sorted_split(x_dv, s_dv, p as int);
    }
    let ghost pos = p as int;
    out.insert(p, x);
    proof {
        assert(out.deep_view() =~~= s_dv.subrange(0, pos) + seq![x_dv] + s_dv.subrange(
            pos,
            s_dv.len() as int,
        )) by {
            assert forall|j: int| 0 <= j < out@.len() implies out.deep_view()[j] == (
            s_dv.subrange(0, pos) + seq![x_dv] + s_dv.subrange(pos, s_dv.len() as int))[j] by {
                if j < pos {
                } else if j == pos {
                } else {
                }
            }
        }
    }
    out
}

/// Where the first `p` elements all precede `x`, insertion lands at `p`.
pub proof fn lemma_insert_sorted_split(x: Seq<u8>, s: Seq<Seq<u8>>, p: int)
    requires
        0 <= p <= s.len(),
        forall|j: int| 0 <= j < p ==> !bytes_le(x, s[j]),
        p < s.len() ==> bytes_le(x, s[p]),
    ensures
        insert_sorted(x, s) == s.subrange(0, p) + seq![x] + s.subrange(p, s.len() as int),
    decreases p,
{
    if s.len() == 0 {
        assert(insert_sorted(x, s) =~= s.subrange(0, p) + seq![x] + s.subrange(
            p,
            s.len() as int,
        ));
    } else if p == 0 {
        assert(bytes_le(x, s[0]));
        assert(insert_sorted(x, s) =~= s.subrange(0, p) + seq![x] + s.subrange(
            p,
            s.len() as int,
        ));
    } else {
        assert(!bytes_le(x, s[0]));
        let t = s.subrange(1, s.len() as int);
        lemma_insert_sorted_split(x, t, p - 1);
        assert(t.subrange(0, p - 1) =~= s.subrange(1, p));
        assert(t.subrange(p - 1, t.len() as int) =~= s.subrange(p, s.len() as int));
        assert(insert_sorted(x, s) =~= s.subrange(0, p) + seq![x] + s.subrange(
            p,
            s.len() as int,
        ));
    }
}

/// Sort tags into serialization order, as executable code.
pub fn sort_tags_exec(tags: &Vec<Vec<u8>>) -> (r: Vec<Vec<u8>>)
    ensures
        r.deep_view() == sort_tags(tags.deep_view()),
{
    let ghost t_dv = tags.deep_view();
    let mut out: Vec<Vec<u8>> = Vec::new();
    let mut i: usize = tags.len();
    proof {
        assert(t_dv.subrange(i as int, t_dv.len() as int) =~= Seq::<Seq<u8>>::empty());
        assert(out.deep_view() =~= sort_tags(t_dv.subrange(i as int, t_dv.len() as int)));
    }
    while i > 0
        invariant
            0 <= i <= t_dv.len(),
            t_dv == tags.deep_view(),
            t_dv.len() == tags@.len(),
            out.deep_view() == sort_tags(t_dv.subrange(i as int, t_dv.len() as int)),
        decreases i,
    {
        i = i - 1;
        let x = tags[i].clone();
        proof {
            assert(x@ == t_dv[i as int]);
        }
        out = insert_sorted_exec(x, out);
        proof {
            let sub = t_dv.subrange(i as int, t_dv.len() as int);
            assert(sub[0] == t_dv[i as int]);
            assert(sub.subrange(1, sub.len() as int) =~= t_dv.subrange(
                i + 1,
                t_dv.len() as int,
            ));
        }
    }
    proof {
        assert(t_dv.subrange(0, t_dv.len() as int) =~= t_dv);
    }
    out
}

/// Tags joined with `','`: the serialized tags field.
pub open spec fn join_tags(s: Seq<Seq<u8>>) -> Seq<u8>
    decreases s.len(),
{
    if s.len() == 0 {
        Seq::empty()
    } else if s.len() == 1 {
        s[0]
    } else {
        s[0] + seq![TAG_SEPARATOR] + join_tags(s.subrange(1, s.len() as int))
    }
}

pub proof fn lemma_join_tags_push(s: Seq<Seq<u8>>, x: Seq<u8>)
    requires
        s.len() >= 1,
    ensures
        join_tags(s.push(x)) == join_tags(s) + seq![TAG_SEPARATOR] + x,
    decreases s.len(),
{
    let r = s.push(x);
    if s.len() == 1 {
        assert(r.subrange(1, r.len() as int) =~= seq![x]);
        assert(join_tags(seq![x]) == x);
        assert(join_tags(r) =~= s[0] + seq![TAG_SEPARATOR] + x);
    } else {
        let t = s.subrange(1, s.len() as int);
        lemma_join_tags_push(t, x);
        assert(r.subrange(1, r.len() as int) =~= t.push(x));
        assert(join_tags(r) =~= join_tags(s) + seq![TAG_SEPARATOR] + x);
    }
}

/// Join tags with `','`, as executable code.
pub fn join_tags_exec(tags: &Vec<Vec<u8>>) -> (r: Vec<u8>)
    ensures
        r@ == join_tags(tags.deep_view()),
{
    let ghost t_dv = tags.deep_view();
    let mut out: Vec<u8> = Vec::new();
    let mut i: usize = 0;
    while i < tags.len()
        invariant
            0 <= i <= t_dv.len(),
            t_dv == tags.deep_view(),
            t_dv.len() == tags@.len(),
            out@ == join_tags(t_dv.subrange(0, i as int)),
        decreases t_dv.len() - i,
    {
        if i > 0 {
            out.push(TAG_SEPARATOR);
        }
        let mut piece = tags[i].clone();
        proof {
            assert(piece@ == t_dv[i as int]);
        }
        out.append(&mut piece);
        proof {
            let pre = t_dv.subrange(0, i as int);
            let cur = t_dv.subrange(0, i + 1);
            assert(cur =~= pre.push(t_dv[i as int]));
            if i == 0 {
                assert(cur.len() == 1);
                assert(out@ =~= join_tags(cur));
            } else {
                lemma_join_tags_push(pre, t_dv[i as int]);
                assert(out@ =~= join_tags(cur));
            }
        }
        i = i + 1;
    }
    proof {
        assert(t_dv.subrange(0, t_dv.len() as int) =~= t_dv);
    }
    out
}

/// Keep the first occurrence of each element, dropping later duplicates.
pub open spec fn dedup(s: Seq<Seq<u8>>) -> Seq<Seq<u8>>
    decreases s.len(),
{
    if s.len() == 0 {
        s
    } else {
        let d = dedup(s.drop_last());
        if d.contains(s.last()) {
            d
        } else {
            d.push(s.last())
        }
    }
}

pub proof fn lemma_dedup_nodup(s: Seq<Seq<u8>>)
    ensures
        dedup(s).no_duplicates(),
    decreases s.len(),
{
    if s.len() > 0 {
        let t = s.drop_last();
        lemma_dedup_nodup(t);
        let d = dedup(t);
        if !d.contains(s.last()) {
            let r = d.push(s.last());
            assert forall|i: int, j: int|
                0 <= i < r.len() && 0 <= j < r.len() && i != j implies r[i] != r[j] by {
                if i < d.len() && j < d.len() {
                    assert(r[i] == d[i] && r[j] == d[j]);
                } else if i < d.len() {
                    assert(r[j] == s.last());
                    if d[i] == s.last() {
                        assert(d.contains(s.last()));
                    }
                } else {
                    assert(r[i] == s.last());
                    if d[j] == s.last() {
                        assert(d.contains(s.last()));
                    }
                }
            }
        }
    }
}

pub proof fn lemma_dedup_of_nodup(s: Seq<Seq<u8>>)
    requires
        s.no_duplicates(),
    ensures
        dedup(s) == s,
    decreases s.len(),
{
    if s.len() > 0 {
        let t = s.drop_last();
        assert(t.no_duplicates());
        lemma_dedup_of_nodup(t);
        if t.contains(s.last()) {
            let j = choose|j: int| 0 <= j < t.len() && t[j] == s.last();
            assert(s[j] == s[s.len() - 1]);
        }
        assert(dedup(s) =~= s);
    }
}

/// Drop later duplicates, as executable code.
pub fn dedup_exec(tags: &Vec<Vec<u8>>) -> (r: Vec<Vec<u8>>)
    ensures
        r.deep_view() == dedup(tags.deep_view()),
{
    let ghost t_dv = tags.deep_view();
    let mut out: Vec<Vec<u8>> = Vec::new();
    let mut i: usize = 0;
    proof {
        assert(t_dv.subrange(0, 0) =~= Seq::<Seq<u8>>::empty());
        assert(out.deep_view() =~= dedup(t_dv.subrange(0, 0)));
    }
    while i < tags.len()
        invariant
            0 <= i <= t_dv.len(),
            t_dv == tags.deep_view(),
            t_dv.len() == tags@.len(),
            out.deep_view() == dedup(t_dv.subrange(0, i as int)),
        decreases t_dv.len() - i,
    {
        let ghost pre = t_dv.subrange(0, i as int);
        let ghost cur = t_dv.subrange(0, i + 1);
        proof {
            assert(cur.drop_last() =~= pre);
            assert(cur.last() == t_dv[i as int]);
        }
        let x = tags[i].clone();
        proof {
            assert(x@ == t_dv[i as int]);
        }
        if !contains_bytes_exec(&out, x.as_slice()) {
            let ghost prev = out@;
            let ghost prev_dv = out.deep_view();
            out.push(x);
            proof {
                assert(out@ == prev.push(x));
                assert(out.deep_view() =~~= prev_dv.push(t_dv[i as int])) by {
                    assert forall|j: int| 0 <= j < out@.len() implies out.deep_view()[j]
                        == prev_dv.push(t_dv[i as int])[j] by {
                        if j < prev.len() {
                            assert(out@[j] == prev[j]);
                        } else {
                            assert(out@[j] == x);
                        }
                    }
                }
            }
        }
        i = i + 1;
    }
    proof {
        assert(t_dv.subrange(0, t_dv.len() as int) =~= t_dv);
    }
    out
}


pub proof fn lemma_find_comma_none(s: Seq<u8>)
    requires
        forall|j: int| 0 <= j < s.len() ==> s[j] != TAG_SEPARATOR,
    ensures
        find_comma(s) == -1,
{
    lemma_find_comma(s);
    if find_comma(s) >= 0 {
        assert(s[find_comma(s)] != TAG_SEPARATOR);
    }
}

pub proof fn lemma_find_comma_at(s: Seq<u8>, k: int)
    requires
        0 <= k < s.len(),
        s[k] == TAG_SEPARATOR,
        forall|j: int| 0 <= j < k ==> s[j] != TAG_SEPARATOR,
    ensures
        find_comma(s) == k,
{
    lemma_find_comma(s);
    let r = find_comma(s);
    if r == -1 {
        assert(s[k] != TAG_SEPARATOR);
    } else if r < k {
        assert(s[r] != TAG_SEPARATOR);
    } else if r > k {
        assert(s[k] != TAG_SEPARATOR);
    }
}

pub proof fn lemma_find_sep_clean_prefix(s: Seq<u8>, k: int)
    requires
        0 <= k,
        k + 2 <= s.len(),
        s[k] == SPACE,
        s[k + 1] == SEPARATOR,
        forall|j: int| 0 <= j <= k ==> s[j] != SEPARATOR,
    ensures
        find_sep(s) == k,
{
    lemma_find_sep(s);
    let r = find_sep(s);
    assert(sep_at(s, k));
    if r == -1 {
        assert(!sep_at(s, k));
    } else if r < k {
        assert(s[r + 1] != SEPARATOR);
        assert(!sep_at(s, r));
    } else if r > k {
        assert(!sep_at(s, k));
    }
}

/// Splitting on commas undoes joining, as long as no tag contains a comma.
pub proof fn lemma_split_join_tags(ts: Seq<Seq<u8>>)
    requires
        ts.len() >= 1,
        forall|k: int, i: int|
            0 <= k < ts.len() && 0 <= i < ts[k].len() ==> #[trigger] ts[k][i] != TAG_SEPARATOR,
    ensures
        split_commas(join_tags(ts)) == ts,
    decreases ts.len(),
{
    let j = join_tags(ts);
    if ts.len() == 1 {
        assert(j == ts[0]);
        assert(forall|i: int| 0 <= i < j.len() ==> j[i] != TAG_SEPARATOR);
        lemma_find_comma_none(j);
        assert(split_commas(j) =~= ts);
    } else {
        let rest = ts.subrange(1, ts.len() as int);
        let k = ts[0].len() as int;
        assert(j == ts[0] + seq![TAG_SEPARATOR] + join_tags(rest));
        assert(j[k] == TAG_SEPARATOR);
        assert(forall|i: int| 0 <= i < k ==> j[i] == ts[0][i]);
        lemma_find_comma_at(j, k);
        assert(j.subrange(0, k) =~= ts[0]);
        assert(j.subrange(k + 1, j.len() as int) =~= join_tags(rest));
        assert(forall|k2: int, i: int|
            0 <= k2 < rest.len() && 0 <= i < rest[k2].len() ==> #[trigger] rest[k2][i]
                != TAG_SEPARATOR) by {
            assert(forall|k2: int| 0 <= k2 < rest.len() ==> rest[k2] == ts[k2 + 1]);
        }
        lemma_split_join_tags(rest);
        assert(split_commas(j) =~= ts);
    }
}

/// Trimming a single leading space recovers an already-trimmed field.
pub proof fn lemma_trimmed_space_prefix(t: Seq<u8>)
    requires
        is_trimmed(t),
    ensures
        trimmed(seq![SPACE] + t) == t,
{
    let s = seq![SPACE] + t;
    assert(s[0] == SPACE && is_space(SPACE));
    assert(s.subrange(1, s.len() as int) =~= t);
    assert(trim_start(s) == trim_start(t));
    if t.len() > 0 {
        assert(!is_space(t[0]));
    }
    assert(trim_start(t) == t);
    assert(trim_end(t) == t);
}

/// Shape of a joined tags field when every tag is serialisable: non-empty,
/// bounded by the first and last tags' outer bytes, and free of `'|'`.
pub proof fn lemma_join_tags_props(ts: Seq<Seq<u8>>)
    requires
        ts.len() >= 1,
        forall|k: int| 0 <= k < ts.len() ==> (#[trigger] ts[k]).len() > 0,
        forall|k: int, i: int|
            0 <= k < ts.len() && 0 <= i < ts[k].len() ==> #[trigger] ts[k][i] != SEPARATOR,
        forall|k: int| 0 <= k < ts.len() ==> !is_space((#[trigger] ts[k])[0]) && !is_space(
            ts[k].last(),
        ),
    ensures
        join_tags(ts).len() > 0,
        join_tags(ts)[0] == ts[0][0],
        join_tags(ts).last() == ts.last().last(),
        forall|i: int| 0 <= i < join_tags(ts).len() ==> #[trigger] join_tags(ts)[i] != SEPARATOR,
    decreases ts.len(),
{
    let j = join_tags(ts);
    if ts.len() == 1 {
        assert(j == ts[0]);
    } else {
        let rest = ts.subrange(1, ts.len() as int);
        assert(forall|k2: int| 0 <= k2 < rest.len() ==> rest[k2] == ts[k2 + 1]);
        lemma_join_tags_props(rest);
        let jr = join_tags(rest);
        assert(j == ts[0] + seq![TAG_SEPARATOR] + jr);
        assert(j.last() == jr.last());
        assert(rest.last() == ts.last());
        assert forall|i: int| 0 <= i < j.len() implies #[trigger] j[i] != SEPARATOR by {
            if i < ts[0].len() {
                assert(j[i] == ts[0][i]);
            } else if i == ts[0].len() {
                assert(j[i] == TAG_SEPARATOR);
            } else {
                assert(j[i] == jr[i - ts[0].len() - 1]);
            }
        }
    }
}


/// Words joined with single spaces: how a trailing comment is assembled
/// from command-line arguments.
pub open spec fn join_spaces(s: Seq<Seq<u8>>) -> Seq<u8>
    decreases s.len(),
{
    if s.len() == 0 {
        Seq::empty()
    } else if s.len() == 1 {
        s[0]
    } else {
        s[0] + seq![SPACE] + join_spaces(s.subrange(1, s.len() as int))
    }
}

pub proof fn lemma_join_spaces_push(s: Seq<Seq<u8>>, x: Seq<u8>)
    requires
        s.len() >= 1,
    ensures
        join_spaces(s.push(x)) == join_spaces(s) + seq![SPACE] + x,
    decreases s.len(),
{
    let r = s.push(x);
    if s.len() == 1 {
        assert(r.subrange(1, r.len() as int) =~= seq![x]);
        assert(join_spaces(seq![x]) == x);
        assert(join_spaces(r) =~= s[0] + seq![SPACE] + x);
    } else {
        let t = s.subrange(1, s.len() as int);
        lemma_join_spaces_push(t, x);
        assert(r.subrange(1, r.len() as int) =~= t.push(x));
        assert(join_spaces(r) =~= join_spaces(s) + seq![SPACE] + x);
    }
}

/// Join the elements of `v` from index `from` on with single spaces.
pub fn join_spaces_range_exec(v: &Vec<Vec<u8>>, from: usize) -> (r: Vec<u8>)
    requires
        from <= v@.len(),
    ensures
        r@ == join_spaces(v.deep_view().subrange(from as int, v.deep_view().len() as int)),
{
    let ghost dv = v.deep_view();
    let mut out: Vec<u8> = Vec::new();
    let mut i: usize = from;
    proof {
        assert(dv.subrange(from as int, from as int) =~= Seq::<Seq<u8>>::empty());
    }
    while i < v.len()
        invariant
            from <= i <= dv.len(),
            dv == v.deep_view(),
            dv.len() == v@.len(),
            out@ == join_spaces(dv.subrange(from as int, i as int)),
        decreases dv.len() - i,
    {
        if i > from {
            out.push(SPACE);
        }
        out.extend_from_slice(v[i].as_slice());
        proof {
            assert(v@[i as int]@ =~= dv[i as int]);
            let pre = dv.subrange(from as int, i as int);
            let cur = dv.subrange(from as int, i + 1);
            assert(cur =~= pre.push(dv[i as int]));
            if i == from {
                assert(cur.len() == 1);
                assert(out@ =~= join_spaces(cur));
            } else {
                lemma_join_spaces_push(pre, dv[i as int]);
                assert(out@ =~= join_spaces(cur));
            }
        }
        i = i + 1;
    }
    out
}

} // verus!
