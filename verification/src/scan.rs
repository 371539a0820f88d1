//! Finding and splitting on separator characters, in specification and in
//! executable form: the address grammar is stated over these.

use vstd::prelude::*;

verus! {

/// The index of the first occurrence of `c` in `s`, or `-1` when absent.
pub open spec fn find_first(s: Seq<char>, c: char) -> int
    decreases s.len(),
{
    if s.len() == 0 {
        -1
    } else if s.first() == c {
        0
    } else {
        let r = find_first(s.drop_first(), c);
        if r < 0 {
            -1
        } else {
            1 + r
        }
    }
}

/// What `find_first` returns: the first occurrence when there is one.
pub proof fn lemma_find_first(s: Seq<char>, c: char)
    ensures
        s.contains(c) <==> find_first(s, c) >= 0,
        find_first(s, c) >= 0 ==> {
            &&& find_first(s, c) < s.len()
            &&& s[find_first(s, c)] == c
            &&& forall|j: int| 0 <= j < find_first(s, c) ==> s[j] != c
        },
    decreases s.len(),
{
    if s.len() == 0 {
    } else if s.first() == c {
        assert(s[0] == c);
    } else {
        lemma_find_first(s.drop_first(), c);
        let t = s.drop_first();
        let r = find_first(t, c);
        assert(forall|i: int| 0 <= i < t.len() ==> t[i] == s[i + 1]);
        if s.contains(c) {
            let w = choose|w: int| 0 <= w < s.len() && s[w] == c;
            assert(w != 0);
            assert(t[w - 1] == c);
            assert(t.contains(c));
        }
        if r >= 0 {
            assert(s[1 + r] == c);
            assert(s.contains(c));
            assert forall|j: int| 0 <= j < 1 + r implies s[j] != c by {
                if j >= 1 {
                    assert(t[j - 1] == s[j]);
                    assert(t[j - 1] != c);
                }
            }
        }
    }
}

/// Splitting `s` at every occurrence of `sep`: `n` occurrences give `n + 1`
/// segments, so splitting the empty sequence gives one empty segment.
pub open spec fn split_on(s: Seq<char>, sep: char) -> Seq<Seq<char>>
    decreases s.len(),
{
    if s.len() == 0 {
        seq![Seq::<char>::empty()]
    } else {
        let rest = split_on(s.drop_first(), sep);
        if s.first() == sep {
            seq![Seq::<char>::empty()] + rest
        } else {
            seq![seq![s.first()] + rest.first()] + rest.drop_first()
        }
    }
}

/// Splitting never yields an empty list of segments.
pub proof fn lemma_split_on_len(s: Seq<char>, sep: char)
    ensures
        split_on(s, sep).len() >= 1,
    decreases s.len(),
{
    if s.len() > 0 {
        lemma_split_on_len(s.drop_first(), sep);
    }
}

/// A sequence free of the separator is a single segment.
pub proof fn lemma_split_on_single(s: Seq<char>, sep: char)
    requires
        !s.contains(sep),
    ensures
        split_on(s, sep) == seq![s],
    decreases s.len(),
{
    if s.len() == 0 {
        assert(split_on(s, sep) =~~= seq![s]);
    } else {
        assert(s[0] != sep);
        let t = s.drop_first();
        assert(forall|i: int| 0 <= i < t.len() ==> t[i] == s[i + 1]);
        assert(!t.contains(sep));
        lemma_split_on_single(t, sep);
        lemma_split_on_len(t, sep);
        assert(seq![s.first()] + t =~= s);
        assert(split_on(s, sep) =~~= seq![s]);
    }
}

/// Splitting `a + sep + b` when `a` is free of the separator: `a` is the
/// first segment and the rest splits as `b` does.
pub proof fn lemma_split_on_sep(a: Seq<char>, b: Seq<char>, sep: char)
    requires
        !a.contains(sep),
    ensures
        split_on(a + seq![sep] + b, sep) == seq![a] + split_on(b, sep),
    decreases a.len(),
{
    let s = a + seq![sep] + b;
    if a.len() == 0 {
        assert(s.first() == sep);
        assert(s.drop_first() =~= b);
        assert(split_on(s, sep) =~~= seq![a] + split_on(b, sep));
    } else {
        assert(a[0] != sep);
        assert(s.first() == a.first());
        let t = a.drop_first();
        assert(forall|i: int| 0 <= i < t.len() ==> t[i] == a[i + 1]);
        assert(!t.contains(sep));
        lemma_split_on_sep(t, b, sep);
        assert(s.drop_first() =~= t + seq![sep] + b);
        lemma_split_on_len(b, sep);
        let rest = split_on(s.drop_first(), sep);
        assert(rest == seq![t] + split_on(b, sep));
        assert(rest.first() == t);
        assert(seq![s.first()] + t =~= a);
        assert(rest.drop_first() =~= split_on(b, sep));
        assert(split_on(s, sep) =~~= seq![a] + split_on(b, sep));
    }
}

/// A character absent from two sequences is absent from their concatenation.
pub proof fn lemma_concat_free_of(a: Seq<char>, b: Seq<char>, c: char)
    requires
        !a.contains(c),
        !b.contains(c),
    ensures
        !(a + b).contains(c),
{
    if (a + b).contains(c) {
        let w = choose|w: int| 0 <= w < (a + b).len() && (a + b)[w] == c;
        if w < a.len() {
            assert(a[w] == c);
        } else {
            assert(b[w - a.len()] == c);
        }
    }
}

/// No two adjacent occurrences of `sep` anywhere in `s`.
pub open spec fn no_double(s: Seq<char>, sep: char) -> bool {
    forall|i: int| 0 <= i && i + 1 < s.len() ==> (#[trigger] s[i]) != sep || s[i + 1] != sep
}

/// Splits `s` at the first pair of adjacent `sep` characters: the part
/// before the pair and the part after it, or `None` when no pair occurs.
pub open spec fn split_double(s: Seq<char>, sep: char) -> Option<(Seq<char>, Seq<char>)>
    decreases s.len(),
{
    if s.len() < 2 {
        None
    } else if s[0] == sep && s[1] == sep {
        Some((Seq::<char>::empty(), s.skip(2)))
    } else {
        match split_double(s.drop_first(), sep) {
            None => None,
            Some(p) => Some((seq![s.first()] + p.0, p.1)),
        }
    }
}

/// Without adjacent separators there is nothing to split at.
pub proof fn lemma_split_double_none(s: Seq<char>, sep: char)
    requires
        no_double(s, sep),
    ensures
        split_double(s, sep) is None,
    decreases s.len(),
{
    if s.len() >= 2 {
        let t = s.drop_first();
        assert(forall|i: int| 0 <= i < t.len() ==> t[i] == s[i + 1]);
        assert(no_double(t, sep)) by {
            assert forall|i: int| 0 <= i && i + 1 < t.len() implies (#[trigger] t[i]) != sep
                || t[i + 1] != sep by {
                assert(t[i] == s[i + 1] && t[i + 1] == s[i + 2]);
            }
        }
        lemma_split_double_none(t, sep);
    }
}

/// The first pair of adjacent separators, at position `i`, splits `s` into
/// the part before it and the part after it.
pub proof fn lemma_split_double_at(s: Seq<char>, sep: char, i: int)
    requires
        0 <= i,
        i + 1 < s.len(),
        s[i] == sep,
        s[i + 1] == sep,
        forall|j: int| 0 <= j < i ==> (#[trigger] s[j]) != sep || s[j + 1] != sep,
    ensures
        split_double(s, sep) == Some((s.take(i), s.skip(i + 2))),
    decreases i,
{
    if i == 0 {
        assert(s.take(0) =~= Seq::<char>::empty());
        assert(split_double(s, sep) == Some((s.take(0), s.skip(2))));
    } else {
        let t = s.drop_first();
        assert(forall|k: int| 0 <= k < t.len() ==> t[k] == s[k + 1]);
        assert(!(s[0] == sep && s[1] == sep));
        assert forall|j: int| 0 <= j < i - 1 implies (#[trigger] t[j]) != sep || t[j + 1]
            != sep by {
            assert(t[j] == s[j + 1] && t[j + 1] == s[j + 2]);
        }
        assert(t[i - 1] == sep && t[i] == sep);
        lemma_split_double_at(t, sep, i - 1);
        assert(seq![s.first()] + t.take(i - 1) =~= s.take(i));
        assert(t.skip(i + 1) =~= s.skip(i + 2));
    }
}

/// Prepending a separator-free segment and a separator keeps a sequence free
/// of adjacent separators, provided the sequence does not begin with one.
pub proof fn lemma_no_double_prepend(a: Seq<char>, b: Seq<char>, sep: char)
    requires
        !a.contains(sep),
        a.len() > 0,
        b.len() == 0 || b.first() != sep,
        no_double(b, sep),
    ensures
        no_double(a + seq![sep] + b, sep),
        (a + seq![sep] + b).first() == a.first(),
        (a + seq![sep] + b).len() > 0,
{
    let s = a + seq![sep] + b;
    assert(forall|i: int| 0 <= i < a.len() ==> s[i] == a[i]);
    assert(forall|i: int| 0 <= i < b.len() ==> s[a.len() + 1 + i] == b[i]);
    assert forall|i: int| 0 <= i && i + 1 < s.len() implies (#[trigger] s[i]) != sep || s[i + 1]
        != sep by {
        if i + 1 < a.len() {
            assert(s[i] == a[i]);
            assert(a[i] != sep);
        } else if i + 1 == a.len() {
            assert(s[i] == a[i]);
            assert(a[i] != sep);
        } else if i == a.len() {
            assert(s[i + 1] == b[0]);
        } else {
            assert(s[i] == b[i - a.len() - 1]);
            assert(s[i + 1] == b[i - a.len()]);
        }
    }
}

/// The index of the first occurrence of `c` in `s`.
pub fn find_char(s: &str, c: char) -> (r: Option<usize>)
    ensures
        r matches Some(i) ==> find_first(s@, c) == i,
        r is None ==> find_first(s@, c) < 0,
{
    let n = s.unicode_len();
    let mut i: usize = 0;
    while i < n
        invariant
            i <= n,
            n == s@.len(),
            forall|j: int| 0 <= j < i ==> s@[j] != c,
        decreases n - i,
    {
        if s.get_char(i) == c {
            proof {
                lemma_find_first(s@, c);
                assert(s@.contains(c)) by {
                    assert(s@[i as int] == c);
                }
                let r = find_first(s@, c);
                assert(!(r < i));
                assert(!(r > i)) by {
                    assert(s@[r] == c);
                }
            }
            return Some(i);
        }
        i = i + 1;
    }
    proof {
        lemma_find_first(s@, c);
        if s@.contains(c) {
            let w = choose|w: int| 0 <= w < s@.len() && s@[w] == c;
            assert(s@[w] != c);
        }
    }
    None
}

/// The index of the first pair of adjacent occurrences of `c` in `s`.
pub fn find_double_char(s: &str, c: char) -> (r: Option<usize>)
    ensures
        r matches Some(i) ==> {
            &&& i + 1 < s@.len()
            &&& split_double(s@, c) == Some((s@.take(i as int), s@.skip(i as int + 2)))
        },
        r is None ==> split_double(s@, c) is None,
{
    let n = s.unicode_len();
    if n < 2 {
        proof {
            lemma_split_double_none(s@, c);
        }
        return None;
    }
    let mut i: usize = 0;
    let mut prev = s.get_char(0);
    while i + 1 < n
        invariant
            i + 1 <= n,
            n == s@.len(),
            n >= 2,
            prev == s@[i as int],
            forall|j: int| 0 <= j < i ==> (#[trigger] s@[j]) != c || s@[j + 1] != c,
        decreases n - i,
    {
        let cur = s.get_char(i + 1);
        if prev == c && cur == c {
            proof {
                lemma_split_double_at(s@, c, i as int);
            }
            return Some(i);
        }
        prev = cur;
        i = i + 1;
    }
    proof {
        lemma_split_double_none(s@, c);
    }
    None
}

/// The segments of `s` between occurrences of `sep`.
pub fn split_str(s: &str, sep: char) -> (r: Vec<String>)
    ensures
        r@.map_values(|t: String| t@) == split_on(s@, sep),
    decreases s@.len(),
{
    match find_char(s, sep) {
        None => {
            proof {
                lemma_find_first(s@, sep);
                lemma_split_on_single(s@, sep);
            }
            let mut v: Vec<String> = Vec::new();
            v.push(s.to_owned());
            proof {
                assert(v@.map_values(|t: String| t@) =~= seq![s@]);
            }
            v
        },
        Some(i) => {
            let n = s.unicode_len();
            proof {
                lemma_find_first(s@, sep);
            }
            let head = s.substring_char(0, i).to_owned();
            let tail = s.substring_char(i + 1, n);
            let mut v = split_str(tail, sep);
            v.insert(0, head);
            proof {
                let a = s@.take(i as int);
                let b = s@.skip(i as int + 1);
                assert(!a.contains(sep)) by {
                    if a.contains(sep) {
                        let w = choose|w: int| 0 <= w < a.len() && a[w] == sep;
                        assert(s@[w] == sep);
                    }
                }
                lemma_split_on_sep(a, b, sep);
                assert(a + seq![sep] + b =~= s@);
                assert(v@.map_values(|t: String| t@) =~= seq![a] + split_on(b, sep));
            }
            v
        },
    }
}

} // verus!
