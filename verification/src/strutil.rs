use vstd::prelude::*;

verus! {

/// Splitting a character sequence at every occurrence of `sep`, in the manner
/// of `str::split`: the empty sequence yields one empty segment, and a
/// separator at either end yields an empty segment on that side.
pub open spec fn split_on(s: Seq<char>, sep: char) -> Seq<Seq<char>>
    decreases s.len(),
{
    if s.len() == 0 {
        seq![Seq::<char>::empty()]
    } else if s[0] == sep {
        seq![Seq::<char>::empty()] + split_on(s.drop_first(), sep)
    } else {
        let rest = split_on(s.drop_first(), sep);
        seq![seq![s[0]] + rest[0]] + rest.drop_first()
    }
}

/// Joining segments with a separator character between neighbours.
pub open spec fn join_with(ss: Seq<Seq<char>>, sep: char) -> Seq<char>
    decreases ss.len(),
{
    if ss.len() == 0 {
        Seq::<char>::empty()
    } else if ss.len() == 1 {
        ss[0]
    } else {
        ss[0] + seq![sep] + join_with(ss.drop_first(), sep)
    }
}

pub proof fn lemma_split_on_nonempty(s: Seq<char>, sep: char)
    ensures
        split_on(s, sep).len() >= 1,
    decreases s.len(),
{
    if s.len() != 0 && s[0] != sep {
        lemma_split_on_nonempty(s.drop_first(), sep);
    }
}

/// If the first `k` characters of `t` hold no separator, the split is
/// determined: either `t` is a single segment (no separator at all), or the
/// first segment ends at the first separator.
pub proof fn lemma_split_on_head(t: Seq<char>, sep: char, k: int)
    requires
        0 <= k <= t.len(),
        forall|j: int| 0 <= j < k ==> t[j] != sep,
    ensures
        k == t.len() && (forall|j: int| 0 <= j < t.len() ==> t[j] != sep) ==> split_on(t, sep)
            == seq![t],
        k < t.len() && t[k] == sep ==> split_on(t, sep) == seq![t.take(k)] + split_on(
            t.skip(k + 1),
            sep,
        ),
    decreases t.len(),
{
    lemma_split_on_nonempty(t, sep);
    if t.len() == 0 {
        assert(t =~= Seq::<char>::empty());
        assert(split_on(t, sep) == seq![Seq::<char>::empty()]);
    } else if t[0] == sep {
        if k < t.len() && t[k] == sep {
            // k must be 0 here since t[0] == sep and no separator below k
            assert(k == 0);
            assert(t.take(0) =~= Seq::<char>::empty());
            assert(t.skip(1) =~= t.drop_first());
            assert(split_on(t, sep) =~= seq![t.take(0)] + split_on(t.skip(1), sep));
        }
    } else {
        let td = t.drop_first();
        let rest = split_on(td, sep);
        lemma_split_on_nonempty(td, sep);
        if k == t.len() && (forall|j: int| 0 <= j < t.len() ==> t[j] != sep) {
            assert(forall|j: int| 0 <= j < td.len() ==> td[j] != sep);
            lemma_split_on_head(td, sep, k - 1);
            assert(rest == seq![td]);
            assert(seq![t[0]] + rest[0] =~= t);
            assert(rest.drop_first() =~= Seq::<Seq<char>>::empty());
            assert(split_on(t, sep) =~= seq![t]);
        } else if k < t.len() && t[k] == sep {
            assert(k >= 1);
            assert(forall|j: int| 0 <= j < k - 1 ==> td[j] != sep);
            assert(td[k - 1] == sep);
            lemma_split_on_head(td, sep, k - 1);
            assert(rest == seq![td.take(k - 1)] + split_on(td.skip(k), sep));
            assert(rest[0] == td.take(k - 1));
            assert(seq![t[0]] + rest[0] =~= t.take(k));
            assert(rest.drop_first() =~= split_on(td.skip(k), sep));
            assert(td.skip(k) =~= t.skip(k + 1));
            assert(split_on(t, sep) =~= seq![t.take(k)] + split_on(t.skip(k + 1), sep));
        }
    }
}

/// Pushing a segment onto a join appends it after one more separator.
pub proof fn lemma_join_push(ss: Seq<Seq<char>>, x: Seq<char>, sep: char)
    ensures
        ss.len() == 0 ==> join_with(ss.push(x), sep) == x,
        ss.len() >= 1 ==> join_with(ss.push(x), sep) == join_with(ss, sep) + seq![sep] + x,
    decreases ss.len(),
{
    let p = ss.push(x);
    if ss.len() == 0 {
        assert(p.len() == 1);
        assert(p[0] == x);
    } else if ss.len() == 1 {
        assert(p.len() == 2);
        assert(p.drop_first() =~= seq![x]);
        assert(join_with(p.drop_first(), sep) == x);
        assert(join_with(p, sep) == p[0] + seq![sep] + x);
        assert(p[0] == ss[0]);
        assert(join_with(ss, sep) == ss[0]);
    } else {
        lemma_join_push(ss.drop_first(), x, sep);
        assert(p.drop_first() =~= ss.drop_first().push(x));
        assert(join_with(p, sep) == p[0] + seq![sep] + join_with(p.drop_first(), sep));
        assert(join_with(p.drop_first(), sep) == join_with(ss.drop_first(), sep) + seq![sep] + x);
        assert(join_with(ss, sep) == ss[0] + seq![sep] + join_with(ss.drop_first(), sep));
        assert(p[0] == ss[0]);
        assert(p[0] + seq![sep] + (join_with(ss.drop_first(), sep) + seq![sep] + x) =~= (ss[0]
            + seq![sep] + join_with(ss.drop_first(), sep)) + seq![sep] + x);
    }
}

/// No segment of a split contains the separator.
pub proof fn lemma_split_on_no_sep(s: Seq<char>, sep: char)
    ensures
        forall|i: int, j: int|
            0 <= i < split_on(s, sep).len() && 0 <= j < split_on(s, sep)[i].len() ==> split_on(
                s,
                sep,
            )[i][j] != sep,
    decreases s.len(),
{
    if s.len() == 0 {
    } else if s[0] == sep {
        lemma_split_on_no_sep(s.drop_first(), sep);
        assert forall|i: int, j: int|
            0 <= i < split_on(s, sep).len() && 0 <= j < split_on(s, sep)[i].len() implies split_on(
            s,
            sep,
        )[i][j] != sep by {
            if i >= 1 {
                assert(split_on(s, sep)[i] == split_on(s.drop_first(), sep)[i - 1]);
            }
        }
    } else {
        let td = s.drop_first();
        let rest = split_on(td, sep);
        lemma_split_on_no_sep(td, sep);
        lemma_split_on_nonempty(td, sep);
        assert forall|i: int, j: int|
            0 <= i < split_on(s, sep).len() && 0 <= j < split_on(s, sep)[i].len() implies split_on(
            s,
            sep,
        )[i][j] != sep by {
            if i == 0 {
                assert(split_on(s, sep)[0] == seq![s[0]] + rest[0]);
                if j >= 1 {
                    assert((seq![s[0]] + rest[0])[j] == rest[0][j - 1]);
                }
            } else {
                assert(split_on(s, sep)[i] == rest[i]);
            }
        }
    }
}

/// Splits a string at every occurrence of a character, as `str::split` does.
pub fn split_str(s: &str, sep: char) -> (r: Vec<String>)
    ensures
        r@.map_values(|t: String| t@) == split_on(s@, sep),
{
    let n = s.unicode_len();
    let mut out: Vec<String> = Vec::new();
    let mut start: usize = 0;
    let mut i: usize = 0;
    proof {
        assert(s@.skip(0) =~= s@);
        assert(out@.map_values(|t: String| t@) =~= Seq::<Seq<char>>::empty());
        assert(Seq::<Seq<char>>::empty() + split_on(s@, sep) =~= split_on(s@, sep));
    }
    while i < n
        invariant
            n == s@.len(),
            0 <= start <= i <= n,
            forall|j: int| start <= j < i ==> s@[j] != sep,
            split_on(s@, sep) == out@.map_values(|t: String| t@) + split_on(
                s@.skip(start as int),
                sep,
            ),
        decreases n - i,
    {
        if s.get_char(i) == sep {
            let seg = s.substring_char(start, i).to_owned();
            proof {
                let suffix = s@.skip(start as int);
                assert(forall|j: int| 0 <= j < i - start ==> suffix[j] != sep);
                assert(suffix[i - start] == sep);
                lemma_split_on_head(suffix, sep, i - start);
                assert(suffix.take(i - start) =~= s@.subrange(start as int, i as int));
                assert(suffix.skip(i - start + 1) =~= s@.skip(i + 1));
                assert(out@.push(seg).map_values(|t: String| t@) =~= out@.map_values(
                    |t: String| t@,
                ).push(seg@));
                assert(out@.map_values(|t: String| t@).push(seg@) + split_on(s@.skip(i + 1), sep)
                    =~= out@.map_values(|t: String| t@) + (seq![seg@] + split_on(
                    s@.skip(i + 1),
                    sep,
                )));
            }
            out.push(seg);
            i = i + 1;
            start = i;
        } else {
            i = i + 1;
        }
    }
    let seg = s.substring_char(start, n).to_owned();
    proof {
        let suffix = s@.skip(start as int);
        assert(forall|j: int| 0 <= j < suffix.len() ==> suffix[j] != sep);
        lemma_split_on_head(suffix, sep, suffix.len() as int);
        assert(suffix =~= s@.subrange(start as int, n as int));
        assert(out@.push(seg).map_values(|t: String| t@) =~= out@.map_values(
            |t: String| t@,
        ).push(seg@));
        assert(out@.map_values(|t: String| t@).push(seg@) =~= out@.map_values(|t: String| t@)
            + seq![seg@]);
    }
    out.push(seg);
    out
}

/// Relies on `core::str::from_utf8`: it accepts exactly the byte sequences
/// that are valid UTF-8 and decodes them to the characters they encode, as
/// `vstd::utf8` models both.
#[verifier::external_body]
pub fn utf8_to_string(v: &[u8]) -> (r: Option<String>)
    ensures
        match r {
            Some(s) => vstd::utf8::valid_utf8(v@) && s@ == vstd::utf8::decode_utf8(v@),
            None => !vstd::utf8::valid_utf8(v@),
        },
{
    match core::str::from_utf8(v) {
        Ok(s) => Some(s.to_string()),
        Err(_) => None,
    }
}

/// Finds the last occurrence of a character, as `str::rfind` does.
pub fn rfind_char(s: &str, c: char) -> (r: Option<usize>)
    ensures
        match r {
            Some(i) => i < s@.len() && s@[i as int] == c && (forall|j: int|
                i < j < s@.len() ==> s@[j] != c),
            None => forall|j: int| 0 <= j < s@.len() ==> s@[j] != c,
        },
{
    let n = s.unicode_len();
    let mut i: usize = n;
    while i > 0
        invariant
            n == s@.len(),
            0 <= i <= n,
            forall|j: int| i <= j < n ==> s@[j] != c,
        decreases i,
    {
        i = i - 1;
        if s.get_char(i) == c {
            return Some(i);
        }
    }
    None
}

/// Whether `p` is a prefix of `s`, as `str::starts_with` does.
pub fn has_prefix(s: &str, p: &str) -> (r: bool)
    ensures
        r == p@.is_prefix_of(s@),
{
    let n = s.unicode_len();
    let m = p.unicode_len();
    if m > n {
        return false;
    }
    let mut i: usize = 0;
    while i < m
        invariant
            n == s@.len(),
            m == p@.len(),
            m <= n,
            0 <= i <= m,
            forall|j: int| 0 <= j < i ==> s@[j] == p@[j],
        decreases m - i,
    {
        if s.get_char(i) != p.get_char(i) {
            assert(!p@.is_prefix_of(s@));
            return false;
        }
        i = i + 1;
    }
    proof {
        assert(p@ =~= s@.subrange(0, m as int));
    }
    true
}

/// Whether `p` is a suffix of `s`, as `str::ends_with` does.
pub fn has_suffix(s: &str, p: &str) -> (r: bool)
    ensures
        r == p@.is_suffix_of(s@),
{
    let n = s.unicode_len();
    let m = p.unicode_len();
    if m > n {
        return false;
    }
    let mut i: usize = 0;
    while i < m
        invariant
            n == s@.len(),
            m == p@.len(),
            m <= n,
            0 <= i <= m,
            forall|j: int| 0 <= j < i ==> s@[n - m + j] == p@[j],
        decreases m - i,
    {
        if s.get_char(n - m + i) != p.get_char(i) {
            assert(s@.subrange(n - m, n as int)[i as int] != p@[i as int]);
            assert(!p@.is_suffix_of(s@));
            return false;
        }
        i = i + 1;
    }
    proof {
        assert(p@ =~= s@.subrange(n - m, n as int));
    }
    true
}

/// Joins the segments of `v` from index `from` on, separated by `sep`.
pub fn join_from(v: &Vec<String>, from: usize, sep: char, sep_str: &str) -> (r: String)
    requires
        from <= v@.len(),
        sep_str@ == seq![sep],
    ensures
        r@ == join_with(v@.map_values(|t: String| t@).skip(from as int), sep),
{
    let ghost ss = v@.map_values(|t: String| t@).skip(from as int);
    let mut r = String::new();
    let mut i: usize = from;
    while i < v.len()
        invariant
            from <= i <= v@.len(),
            sep_str@ == seq![sep],
            ss == v@.map_values(|t: String| t@).skip(from as int),
            r@ == join_with(ss.take(i - from), sep),
        decreases v@.len() - i,
    {
        proof {
            assert(v@[i as int]@ == ss[i - from]);
            lemma_join_push(ss.take(i - from), ss[i - from], sep);
            assert(ss.take(i - from).push(ss[i - from]) =~= ss.take(i + 1 - from));
        }
        let ghost r0 = r@;
        if i > from {
            r.append(sep_str);
        }
        r.append(v[i].as_str());
        proof {
            if i == from {
                assert(r0 =~= Seq::<char>::empty());
                assert(r@ =~= ss[i - from]);
            } else {
                assert(r@ == r0 + sep_str@ + v@[i as int]@);
                assert(sep_str@ == seq![sep]);
                assert(v@[i as int]@ == ss[i - from]);
                assert(r0 == join_with(ss.take(i - from), sep));
                assert(r@ =~= join_with(ss.take(i - from), sep) + seq![sep] + ss[i - from]);
            }
        }
        i = i + 1;
    }
    proof {
        assert(ss.take(v@.len() - from) =~= ss);
    }
    r
}

} // verus!
