use vstd::prelude::*;

verus! {

/// Appends one character to a string.
///
/// Trusted: calls `String::push`, which std documents as appending the
/// given `char` to the end of the string.
#[verifier::external_body]
pub(crate) fn push_char(s: &mut String, c: char)
    ensures
        final(s)@ == old(s)@.push(c),
{
    s.push(c);
}

/// The characters of `s`, in order.
pub fn chars_of(s: &str) -> (r: Vec<char>)
    ensures
        r@ == s@,
{
    let mut r: Vec<char> = Vec::new();
    for c in it: s.chars()
        invariant
            r@ == it.seq().take(it.index()),
            it.seq() == s@,
    {
        r.push(c);
    }
    r
}

/// The string made of the given characters.
pub fn string_of(cs: &[char]) -> (r: String)
    ensures
        r@ == cs@,
{
    let mut r = String::new();
    let mut i: usize = 0;
    while i < cs.len()
        invariant
            i <= cs@.len(),
            r@ == cs@.take(i as int),
        decreases cs@.len() - i,
    {
        push_char(&mut r, cs[i]);
        assert(cs@.take(i + 1) == cs@.take(i as int).push(cs@[i as int]));
        i += 1;
    }
    assert(cs@.take(cs@.len() as int) == cs@);
    r
}

/// Whether two strings hold the same characters.
pub fn same_text(a: &str, b: &str) -> (r: bool)
    ensures
        r == (a@ == b@),
{
    let x = chars_of(a);
    let y = chars_of(b);
    if x.len() != y.len() {
        return false;
    }
    let mut i: usize = 0;
    while i < x.len()
        invariant
            x@ == a@,
            y@ == b@,
            x@.len() == y@.len(),
            i <= x@.len(),
            forall|j: int| 0 <= j < i ==> x@[j] == y@[j],
        decreases x@.len() - i,
    {
        if x[i] != y[i] {
            return false;
        }
        i += 1;
    }
    assert(x@ =~= y@);
    true
}

// ---------------------------------------------------------------------------
// Replacing every occurrence of a pattern
// ---------------------------------------------------------------------------

/// `s` with every occurrence of `pat` replaced by `to`, the occurrences taken
/// from left to right without overlap; an empty `pat` matches before every
/// character and at the end.
pub open spec fn replace_spec(s: Seq<char>, pat: Seq<char>, to: Seq<char>) -> Seq<char>
    decreases s.len(),
{
    if pat.len() == 0 {
        if s.len() == 0 {
            to
        } else {
            to + seq![s[0]] + replace_spec(s.drop_first(), pat, to)
        }
    } else if s.len() < pat.len() {
        s
    } else if s.take(pat.len() as int) == pat {
        to + replace_spec(s.skip(pat.len() as int), pat, to)
    } else {
        seq![s[0]] + replace_spec(s.drop_first(), pat, to)
    }
}

/// Whether `pat` occurs in `s` at position `i`.
fn matches_at(s: &Vec<char>, pat: &Vec<char>, i: usize) -> (r: bool)
    requires
        i + pat@.len() <= s@.len(),
    ensures
        r == (s@.subrange(i as int, i + pat@.len()) == pat@),
{
    let n = s.len();
    let mut k: usize = 0;
    while k < pat.len()
        invariant
            n == s@.len(),
            i + pat@.len() <= s@.len(),
            k <= pat@.len(),
            forall|j: int| 0 <= j < k ==> s@[i + j] == pat@[j],
        decreases pat@.len() - k,
    {
        if s[i + k] != pat[k] {
            assert(s@.subrange(i as int, i + pat@.len())[k as int] != pat@[k as int]);
            return false;
        }
        k += 1;
    }
    assert(s@.subrange(i as int, i + pat@.len()) =~= pat@);
    true
}

/// Every occurrence of `pat` in `s` replaced by `to`, as `str::replace` does.
pub fn replace_all(s: &str, pat: &str, to: &str) -> (r: String)
    ensures
        r@ == replace_spec(s@, pat@, to@),
{
    let sv = chars_of(s);
    let pv = chars_of(pat);
    let mut r = String::new();
    let mut i: usize = 0;
    let plen = pv.len();
    assert(s@.skip(0) == s@);
    while i < sv.len()
        invariant
            sv@ == s@,
            pv@ == pat@,
            plen == pv@.len(),
            i <= sv@.len(),
            replace_spec(s@, pat@, to@) == r@ + replace_spec(s@.skip(i as int), pat@, to@),
        decreases sv@.len() - i,
    {
        let ghost rest = s@.skip(i as int);
        if plen == 0 {
            r.append(to);
            push_char(&mut r, sv[i]);
            assert(rest.drop_first() == s@.skip(i + 1));
            i += 1;
        } else if sv.len() - i < plen {
            assert(replace_spec(rest, pat@, to@) == rest);
            assert(replace_spec(rest.drop_first(), pat@, to@) == rest.drop_first());
            assert(rest == seq![rest[0]] + rest.drop_first());
            push_char(&mut r, sv[i]);
            assert(rest.drop_first() == s@.skip(i + 1));
            i += 1;
        } else if matches_at(&sv, &pv, i) {
            assert(rest.take(plen as int) == s@.subrange(i as int, i + plen));
            r.append(to);
            assert(rest.skip(plen as int) == s@.skip(i + plen));
            i += plen;
        } else {
            assert(rest.take(plen as int) == s@.subrange(i as int, i + plen));
            push_char(&mut r, sv[i]);
            assert(rest.drop_first() == s@.skip(i + 1));
            i += 1;
        }
    }
    assert(s@.skip(i as int) == Seq::<char>::empty());
    if plen == 0 {
        r.append(to);
    }
    r
}

}

verus! {

/// Whether `pat` occurs in `s`.
pub open spec fn occurs_in(pat: Seq<char>, s: Seq<char>) -> bool {
    exists|i: int| 0 <= i && i + pat.len() <= s.len() && #[trigger] s.subrange(i, i + pat.len()) == pat
}

/// Replacing a non-empty pattern that does not occur leaves the text as it is.
pub proof fn lemma_replace_absent(s: Seq<char>, pat: Seq<char>, to: Seq<char>)
    requires
        pat.len() > 0,
        !occurs_in(pat, s),
    ensures
        replace_spec(s, pat, to) == s,
    decreases s.len(),
{
    if s.len() >= pat.len() {
        assert(s.take(pat.len() as int) != pat) by {
            assert(s.subrange(0int, 0int + pat.len()) == s.take(pat.len() as int));
            assert(!(0 <= 0int && 0int + pat.len() <= s.len() && s.subrange(0int, 0int + pat.len()) == pat));
        }
        let t = s.drop_first();
        assert(!occurs_in(pat, t)) by {
            if occurs_in(pat, t) {
                let i = choose|i: int|
                    0 <= i && i + pat.len() <= t.len() && #[trigger] t.subrange(i, i + pat.len())
                        == pat;
                assert(s.subrange(i + 1, i + 1 + pat.len()) =~= t.subrange(i, i + pat.len()));
            }
        }
        lemma_replace_absent(t, pat, to);
        assert(seq![s[0]] + t =~= s);
    }
}

/// Whether the character `c` is nowhere in `s`.
pub open spec fn lacks(s: Seq<char>, c: char) -> bool {
    forall|k: int| 0 <= k < s.len() ==> s[k] != c
}

/// Replacing leaves alone a part at the front of the text in which the
/// pattern's first character does not appear.
pub proof fn lemma_replace_after_free_prefix(x: Seq<char>, y: Seq<char>, pat: Seq<char>, to: Seq<char>)
    requires
        pat.len() > 0,
        lacks(x, pat[0]),
    ensures
        replace_spec(x + y, pat, to) == x + replace_spec(y, pat, to),
    decreases x.len(),
{
    let s = x + y;
    if x.len() == 0 {
        assert(s =~= y);
    } else if s.len() < pat.len() {
        assert(y.len() < pat.len());
        assert(replace_spec(y, pat, to) == y);
    } else {
        assert(s[0] == x[0]);
        assert(s.take(pat.len() as int)[0] == x[0]);
        assert(s.take(pat.len() as int) != pat);
        assert(s.drop_first() =~= x.drop_first() + y);
        lemma_replace_after_free_prefix(x.drop_first(), y, pat, to);
        assert(seq![x[0]] + (x.drop_first() + replace_spec(y, pat, to)) =~= x + replace_spec(
            y,
            pat,
            to,
        ));
    }
}

/// A text without the pattern's first character is left as it is.
pub proof fn lemma_replace_untouched(s: Seq<char>, pat: Seq<char>, to: Seq<char>)
    requires
        pat.len() > 0,
        lacks(s, pat[0]),
    ensures
        replace_spec(s, pat, to) == s,
{
    lemma_replace_after_free_prefix(s, Seq::<char>::empty(), pat, to);
    assert(s + Seq::<char>::empty() =~= s);
    assert(replace_spec(Seq::<char>::empty(), pat, to) == Seq::<char>::empty());
}

/// The pattern standing between two parts that lack its first character is
/// replaced, and nothing else is.
pub proof fn lemma_replace_single(x: Seq<char>, pat: Seq<char>, y: Seq<char>, to: Seq<char>)
    requires
        pat.len() > 0,
        lacks(x, pat[0]),
        lacks(y, pat[0]),
    ensures
        replace_spec(x + pat + y, pat, to) == x + to + y,
{
    assert(x + pat + y =~= x + (pat + y));
    lemma_replace_after_free_prefix(x, pat + y, pat, to);
    assert((pat + y).take(pat.len() as int) =~= pat);
    assert((pat + y).skip(pat.len() as int) =~= y);
    lemma_replace_untouched(y, pat, to);
    assert(x + (to + y) =~= x + to + y);
}

// ---------------------------------------------------------------------------
// Splitting at a separator and joining with one
// ---------------------------------------------------------------------------

/// The pieces of `s` between occurrences of `sep`, as `str::split` with a
/// `char` pattern gives them: there is always one piece more than there are
/// separators, and pieces may be empty.
pub open spec fn split_spec(s: Seq<char>, sep: char) -> Seq<Seq<char>>
    decreases s.len(),
{
    if s.len() == 0 {
        seq![Seq::<char>::empty()]
    } else {
        let p = split_spec(s.drop_last(), sep);
        if s.last() == sep {
            p.push(Seq::<char>::empty())
        } else {
            p.update(p.len() - 1, p.last().push(s.last()))
        }
    }
}

/// The pieces joined with `sep` between each two of them.
pub open spec fn join_spec(ts: Seq<Seq<char>>, sep: char) -> Seq<char>
    decreases ts.len(),
{
    if ts.len() == 0 {
        Seq::<char>::empty()
    } else if ts.len() == 1 {
        ts[0]
    } else {
        ts[0] + seq![sep] + join_spec(ts.drop_first(), sep)
    }
}

/// The views of a sequence of character vectors.
pub open spec fn char_vec_views(v: Seq<Vec<char>>) -> Seq<Seq<char>> {
    v.map_values(|p: Vec<char>| p@)
}

/// The views of a sequence of strings.
pub open spec fn string_views(v: Seq<String>) -> Seq<Seq<char>> {
    v.map_values(|p: String| p@)
}

/// A split always has at least one piece.
pub proof fn lemma_split_nonempty(s: Seq<char>, sep: char)
    ensures
        split_spec(s, sep).len() >= 1,
    decreases s.len(),
{
    if s.len() > 0 {
        lemma_split_nonempty(s.drop_last(), sep);
    }
}

/// The pieces of `s` between occurrences of `sep`, as `str::split` gives them.
pub fn split_chars(s: &Vec<char>, sep: char) -> (r: Vec<Vec<char>>)
    ensures
        char_vec_views(r@) == split_spec(s@, sep),
{
    let mut done: Vec<Vec<char>> = Vec::new();
    let mut cur: Vec<char> = Vec::new();
    let mut i: usize = 0;
    assert(s@.take(0) == Seq::<char>::empty());
    assert(char_vec_views(done@).push(cur@) =~= split_spec(Seq::<char>::empty(), sep));
    while i < s.len()
        invariant
            i <= s@.len(),
            split_spec(s@.take(i as int), sep) == char_vec_views(done@).push(cur@),
        decreases s@.len() - i,
    {
        let c = s[i];
        let ghost pre = s@.take(i as int);
        assert(s@.take(i + 1).drop_last() == pre);
        assert(s@.take(i + 1).last() == c);
        if c == sep {
            done.push(cur);
            cur = Vec::new();
            assert(char_vec_views(done@).push(cur@) =~= split_spec(pre, sep).push(
                Seq::<char>::empty(),
            ));
        } else {
            let ghost before = char_vec_views(done@).push(cur@);
            cur.push(c);
            assert(char_vec_views(done@).push(cur@) =~= before.update(
                before.len() - 1,
                before.last().push(c),
            ));
        }
        i += 1;
    }
    done.push(cur);
    assert(s@.take(s@.len() as int) == s@);
    assert(char_vec_views(done@) =~= split_spec(s@, sep));
    done
}

}

verus! {

/// Joining one more piece puts the separator and the piece at the end.
pub proof fn lemma_join_push(ts: Seq<Seq<char>>, t: Seq<char>, sep: char)
    requires
        ts.len() >= 1,
    ensures
        join_spec(ts.push(t), sep) == join_spec(ts, sep) + seq![sep] + t,
    decreases ts.len(),
{
    if ts.len() == 1 {
        assert(ts.push(t).drop_first() =~= seq![t]);
        assert(join_spec(seq![t], sep) == t);
        assert(ts.push(t)[0] == ts[0]);
    } else {
        lemma_join_push(ts.drop_first(), t, sep);
        assert(ts.push(t).drop_first() =~= ts.drop_first().push(t));
        assert(ts.push(t)[0] == ts[0]);
        let a = ts[0];
        let b = join_spec(ts.drop_first(), sep);
        assert(a + seq![sep] + (b + seq![sep] + t) =~= a + seq![sep] + b + seq![sep] + t);
    }
}

proof fn lemma_join_extend_last(ts: Seq<Seq<char>>, c: char, sep: char)
    requires
        ts.len() >= 1,
    ensures
        join_spec(ts.update(ts.len() - 1, ts.last().push(c)), sep) == join_spec(ts, sep).push(c),
    decreases ts.len(),
{
    let u = ts.update(ts.len() - 1, ts.last().push(c));
    if ts.len() == 1 {
    } else {
        lemma_join_extend_last(ts.drop_first(), c, sep);
        assert(u.drop_first() =~= ts.drop_first().update(
            ts.drop_first().len() - 1,
            ts.drop_first().last().push(c),
        ));
        let a = ts[0];
        let b = join_spec(ts.drop_first(), sep);
        assert(a + seq![sep] + b.push(c) =~= (a + seq![sep] + b).push(c));
    }
}

/// Joining the pieces of a split with the same separator gives back the text.
pub proof fn lemma_join_split(s: Seq<char>, sep: char)
    ensures
        join_spec(split_spec(s, sep), sep) == s,
    decreases s.len(),
{
    if s.len() > 0 {
        let p = split_spec(s.drop_last(), sep);
        lemma_join_split(s.drop_last(), sep);
        lemma_split_nonempty(s.drop_last(), sep);
        if s.last() == sep {
            lemma_join_push(p, Seq::<char>::empty(), sep);
        } else {
            lemma_join_extend_last(p, s.last(), sep);
        }
        assert(s.drop_last().push(s.last()) =~= s);
        assert(s.drop_last() + seq![sep] + Seq::<char>::empty() =~= s.drop_last().push(sep));
    }
}

/// Text without the separator is a single piece.
pub proof fn lemma_split_without_sep(s: Seq<char>, sep: char)
    requires
        !s.contains(sep),
    ensures
        split_spec(s, sep) == seq![s],
    decreases s.len(),
{
    if s.len() > 0 {
        assert(!s.drop_last().contains(sep)) by {
            if s.drop_last().contains(sep) {
                let k = choose|k: int| 0 <= k < s.drop_last().len() && s.drop_last()[k] == sep;
                assert(s[k] == sep);
            }
        }
        assert(s[s.len() - 1] != sep);
        lemma_split_without_sep(s.drop_last(), sep);
        let p = split_spec(s.drop_last(), sep);
        assert(split_spec(s, sep) == p.update(0, p[0].push(s.last())));
        assert(s.drop_last().push(s.last()) =~= s);
        assert(seq![s.drop_last()].update(0, s.drop_last().push(s.last())) =~= seq![s]);
    } else {
        assert(s =~= Seq::<char>::empty());
    }
}

/// A character that is not in the text is in none of its pieces.
pub proof fn lemma_split_pieces_lack(s: Seq<char>, sep: char, c: char)
    requires
        !s.contains(c),
    ensures
        forall|j: int|
            0 <= j < split_spec(s, sep).len() ==> !(#[trigger] split_spec(s, sep)[j]).contains(c),
    decreases s.len(),
{
    if s.len() > 0 {
        let p = split_spec(s.drop_last(), sep);
        assert(!s.drop_last().contains(c)) by {
            if s.drop_last().contains(c) {
                let k = choose|k: int| 0 <= k < s.drop_last().len() && s.drop_last()[k] == c;
                assert(s[k] == c);
            }
        }
        lemma_split_pieces_lack(s.drop_last(), sep, c);
        lemma_split_nonempty(s.drop_last(), sep);
        if s.last() != sep {
            let l = p.last().push(s.last());
            assert(s[s.len() - 1] != c);
            assert(!p[p.len() - 1].contains(c));
            assert(!l.contains(c)) by {
                if l.contains(c) {
                    let k = choose|k: int| 0 <= k < l.len() && l[k] == c;
                    if k < l.len() - 1 {
                        assert(p[p.len() - 1][k] == c);
                    }
                }
            }
        }
    }
}

/// Splitting at a separator that joins two texts splits each of them.
pub proof fn lemma_split_concat(x: Seq<char>, y: Seq<char>, sep: char)
    ensures
        split_spec(x + seq![sep] + y, sep) == split_spec(x, sep) + split_spec(y, sep),
    decreases y.len(),
{
    let s = x + seq![sep] + y;
    lemma_split_nonempty(x, sep);
    if y.len() == 0 {
        assert(s.drop_last() =~= x);
        assert(split_spec(x, sep).push(Seq::<char>::empty()) =~= split_spec(x, sep) + seq![
            Seq::<char>::empty(),
        ]);
    } else {
        lemma_split_concat(x, y.drop_last(), sep);
        lemma_split_nonempty(y.drop_last(), sep);
        assert(s.drop_last() =~= x + seq![sep] + y.drop_last());
        assert(s.last() == y.last());
        let px = split_spec(x, sep);
        let py = split_spec(y.drop_last(), sep);
        if y.last() == sep {
            assert((px + py).push(Seq::<char>::empty()) =~= px + py.push(Seq::<char>::empty()));
        } else {
            assert((px + py).update(px.len() + py.len() - 1, (px + py).last().push(y.last()))
                =~= px + py.update(py.len() - 1, py.last().push(y.last())));
        }
    }
}

/// A character other than the separator, put in front of a text, joins its
/// first piece.
pub proof fn lemma_split_cons(c: char, x: Seq<char>, sep: char)
    requires
        c != sep,
    ensures
        split_spec(seq![c] + x, sep) == split_spec(x, sep).update(
            0,
            seq![c] + split_spec(x, sep)[0],
        ),
    decreases x.len(),
{
    let s = seq![c] + x;
    if x.len() == 0 {
        assert(s.drop_last() =~= Seq::<char>::empty());
        assert(s.last() == c);
        assert(seq![c] + Seq::<char>::empty() =~= Seq::<char>::empty().push(c));
        let p = split_spec(s.drop_last(), sep);
        assert(p == seq![Seq::<char>::empty()]);
        assert(split_spec(s, sep) == p.update(0, p[0].push(s.last())));
        assert(split_spec(x, sep) == p);
    } else {
        lemma_split_cons(c, x.drop_last(), sep);
        lemma_split_nonempty(x.drop_last(), sep);
        assert(s.drop_last() =~= seq![c] + x.drop_last());
        assert(s.last() == x.last());
        let p = split_spec(x.drop_last(), sep);
        let d = x.last();
        if d == sep {
            assert(p.update(0, seq![c] + p[0]).push(Seq::<char>::empty()) =~= p.push(
                Seq::<char>::empty(),
            ).update(0, seq![c] + p[0]));
        } else {
            let sp = p.update(0, seq![c] + p[0]);
            let px = p.update(p.len() - 1, p.last().push(d));
            if p.len() == 1 {
                assert((seq![c] + p[0]).push(d) =~= seq![c] + p[0].push(d));
                assert(sp.update(sp.len() - 1, sp.last().push(d)) =~= px.update(
                    0,
                    seq![c] + px[0],
                ));
            } else {
                assert(sp.update(sp.len() - 1, sp.last().push(d)) =~= px.update(
                    0,
                    seq![c] + px[0],
                ));
            }
        }
    }
}

/// A character other than the separator, put at the end of a text, joins its
/// last piece.
pub proof fn lemma_split_snoc(x: Seq<char>, c: char, sep: char)
    requires
        c != sep,
    ensures
        split_spec(x.push(c), sep) == split_spec(x, sep).update(
            split_spec(x, sep).len() - 1,
            split_spec(x, sep).last().push(c),
        ),
{
    assert(x.push(c).drop_last() =~= x);
}

}

verus! {

/// The index of the first occurrence of `c` in `s`.
pub open spec fn first_index_of(s: Seq<char>, c: char) -> Option<int>
    decreases s.len(),
{
    if s.len() == 0 {
        None
    } else if s[0] == c {
        Some(0)
    } else {
        match first_index_of(s.drop_first(), c) {
            Some(i) => Some(i + 1),
            None => None,
        }
    }
}

proof fn lemma_first_index_of_at(s: Seq<char>, c: char, k: int)
    requires
        0 <= k <= s.len(),
        forall|j: int| 0 <= j < k ==> s[j] != c,
    ensures
        k < s.len() && s[k] == c ==> first_index_of(s, c) == Some(k),
        k == s.len() ==> first_index_of(s, c) is None,
    decreases k,
{
    if k > 0 {
        assert forall|j: int| 0 <= j < k - 1 implies s.drop_first()[j] != c by {
            assert(s.drop_first()[j] == s[j + 1]);
        }
        lemma_first_index_of_at(s.drop_first(), c, k - 1);
    }
}

/// The index of the first occurrence of `c`, as `str::find` with a `char`
/// finds it, counted in characters.
pub fn find_char(s: &Vec<char>, c: char) -> (r: Option<usize>)
    ensures
        match r {
            Some(i) => first_index_of(s@, c) == Some(i as int) && i < s@.len() && s@[i as int]
                == c,
            None => first_index_of(s@, c) is None,
        },
{
    let mut i: usize = 0;
    while i < s.len()
        invariant
            i <= s@.len(),
            forall|j: int| 0 <= j < i ==> s@[j] != c,
        decreases s@.len() - i,
    {
        if s[i] == c {
            proof {
                lemma_first_index_of_at(s@, c, i as int);
            }
            return Some(i);
        }
        i += 1;
    }
    proof {
        lemma_first_index_of_at(s@, c, i as int);
    }
    None
}


/// In a text that begins with a part lacking `c`, the first `c` is the first
/// `c` of the rest, shifted by the length of that part.
pub proof fn lemma_first_index_of_concat(x: Seq<char>, y: Seq<char>, c: char)
    requires
        !x.contains(c),
    ensures
        first_index_of(x + y, c) == match first_index_of(y, c) {
            Some(i) => Some(i + x.len()),
            None => None::<int>,
        },
    decreases x.len(),
{
    if x.len() == 0 {
        assert(x + y =~= y);
    } else {
        assert((x + y)[0] == x[0]);
        assert(x[0] != c) by {
            if x[0] == c {
                assert(x.contains(c));
            }
        }
        assert(!x.drop_first().contains(c)) by {
            if x.drop_first().contains(c) {
                let k = choose|k: int| 0 <= k < x.drop_first().len() && x.drop_first()[k] == c;
                assert(x[k + 1] == c);
            }
        }
        assert((x + y).drop_first() =~= x.drop_first() + y);
        lemma_first_index_of_concat(x.drop_first(), y, c);
    }
}

}
