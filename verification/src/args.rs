//! Turning a settings line into the argument list of a process.
use vstd::prelude::*;

use crate::text::{
    chars_of, char_vec_views, join_spec, lemma_join_split, lemma_split_concat, lemma_split_cons,
    lemma_split_nonempty, lemma_split_pieces_lack, lemma_split_snoc,
    lemma_split_without_sep, lemma_join_push, split_chars, split_spec, string_of, string_views,
};

verus! {

/// Whether a token begins with a double quote.
pub open spec fn opens_quote(t: Seq<char>) -> bool {
    t.len() > 0 && t[0] == '"'
}

/// Whether a token ends with a double quote.
pub open spec fn closes_quote(t: Seq<char>) -> bool {
    t.len() > 0 && t.last() == '"'
}

/// A token without its first and its last character.
pub open spec fn strip_ends(t: Seq<char>) -> Seq<char> {
    t.subrange(1, t.len() - 1)
}

/// The index of the first token that ends with a double quote.
pub open spec fn closing_quote(ts: Seq<Seq<char>>) -> Option<int>
    decreases ts.len(),
{
    if ts.len() == 0 {
        None
    } else if closes_quote(ts[0]) {
        Some(0)
    } else {
        match closing_quote(ts.drop_first()) {
            Some(j) => Some(j + 1),
            None => None,
        }
    }
}

/// The closing token is the first one that ends with a double quote, and there
/// is none where no token does.
pub proof fn lemma_closing_quote(ts: Seq<Seq<char>>)
    ensures
        closing_quote(ts) matches Some(q) ==> {
            &&& 0 <= q < ts.len()
            &&& closes_quote(ts[q])
            &&& forall|j: int| 0 <= j < q ==> !closes_quote(#[trigger] ts[j])
        },
        closing_quote(ts) is None ==> forall|j: int| 0 <= j < ts.len() ==> !closes_quote(
            #[trigger] ts[j],
        ),
    decreases ts.len(),
{
    if ts.len() > 0 && !closes_quote(ts[0]) {
        lemma_closing_quote(ts.drop_first());
        assert forall|j: int| 1 <= j < ts.len() implies ts[j] == ts.drop_first()[j - 1] by {}
    }
}

/// The arguments that the space-separated tokens `ts` make: a token that opens
/// a double quote is joined, with single spaces, to the tokens up to the first
/// one that closes a quote, and the quotes around the group are dropped.
pub open spec fn group_tokens(ts: Seq<Seq<char>>) -> Seq<Seq<char>>
    decreases ts.len(),
{
    if ts.len() == 0 {
        Seq::<Seq<char>>::empty()
    } else if opens_quote(ts[0]) {
        match closing_quote(ts) {
            Some(q) => {
                if 0 <= q < ts.len() {
                    seq![strip_ends(join_spec(ts.take(q + 1), ' '))] + group_tokens(
                        ts.skip(q + 1),
                    )
                } else {
                    Seq::<Seq<char>>::empty()
                }
            },
            None => seq![strip_ends(ts[0])] + group_tokens(ts.drop_first()),
        }
    } else {
        seq![ts[0]] + group_tokens(ts.drop_first())
    }
}

/// Whether grouping the tokens `ts` fails: a group that is a lone `"`, an
/// opening quote that no later token closes (anywhere but at the very first
/// token), or, at the very first token, an unclosed quote whose token ends in
/// a character that takes more than one byte in UTF-8.
pub open spec fn group_tokens_fails(ts: Seq<Seq<char>>, at_start: bool) -> bool
    decreases ts.len(),
{
    if ts.len() == 0 {
        false
    } else if opens_quote(ts[0]) {
        match closing_quote(ts) {
            Some(q) => {
                if 0 <= q < ts.len() {
                    (q == 0 && ts[0].len() == 1) || group_tokens_fails(ts.skip(q + 1), false)
                } else {
                    true
                }
            },
            None => !at_start || ts[0].last() as u32 >= 128 || group_tokens_fails(
                ts.drop_first(),
                false,
            ),
        }
    } else {
        group_tokens_fails(ts.drop_first(), false)
    }
}

/// The argument list that `format_for_process` makes of a settings line.
pub open spec fn process_args(settings: Seq<char>) -> Seq<Seq<char>> {
    group_tokens(split_spec(settings, ' '))
}

/// Whether `format_for_process` fails on a settings line.
pub open spec fn process_args_fail(settings: Seq<char>) -> bool {
    group_tokens_fails(split_spec(settings, ' '), true)
}

/// Whether a token ends with a double quote.
fn token_closes(t: &Vec<char>) -> (r: bool)
    ensures
        r == closes_quote(t@),
{
    t.len() > 0 && t[t.len() - 1] == '"'
}

/// Whether a token begins with a double quote.
fn token_opens(t: &Vec<char>) -> (r: bool)
    ensures
        r == opens_quote(t@),
{
    t.len() > 0 && t[0] == '"'
}

/// The characters of `t` from index `from` up to (not including) `to`.
fn slice_chars(t: &Vec<char>, from: usize, to: usize) -> (r: Vec<char>)
    requires
        from <= to <= t@.len(),
    ensures
        r@ == t@.subrange(from as int, to as int),
{
    let mut r: Vec<char> = Vec::new();
    let mut k = from;
    while k < to
        invariant
            from <= k <= to <= t@.len(),
            r@ == t@.subrange(from as int, k as int),
        decreases to - k,
    {
        r.push(t[k]);
        assert(t@.subrange(from as int, k + 1) == t@.subrange(from as int, k as int).push(
            t@[k as int],
        ));
        k += 1;
    }
    r
}

/// The tokens `ts[from..=to]` joined with single spaces.
fn join_tokens(ts: &Vec<Vec<char>>, from: usize, to: usize) -> (r: Vec<char>)
    requires
        from <= to < ts@.len(),
    ensures
        r@ == join_spec(char_vec_views(ts@).subrange(from as int, to + 1), ' '),
{
    let ghost v = char_vec_views(ts@);
    let mut r = ts[from].clone();
    assert(v.subrange(from as int, from + 1) =~= seq![v[from as int]]);
    let mut k = from;
    while k < to
        invariant
            v == char_vec_views(ts@),
            from <= k <= to < ts@.len(),
            r@ == join_spec(v.subrange(from as int, k + 1), ' '),
        decreases to - k,
    {
        k += 1;
        r.push(' ');
        let mut j: usize = 0;
        let ghost before = r@;
        while j < ts[k].len()
            invariant
                v == char_vec_views(ts@),
                k < ts@.len(),
                j <= ts@[k as int]@.len(),
                r@ == before + ts@[k as int]@.take(j as int),
            decreases ts@[k as int]@.len() - j,
        {
            r.push(ts[k][j]);
            assert(ts@[k as int]@.take(j + 1) == ts@[k as int]@.take(j as int).push(
                ts@[k as int]@[j as int],
            ));
            j += 1;
        }
        assert(ts@[k as int]@.take(j as int) == ts@[k as int]@);
        proof {
            lemma_join_push(v.subrange(from as int, k as int), v[k as int], ' ');
            assert(v.subrange(from as int, k + 1) =~= v.subrange(from as int, k as int).push(
                v[k as int],
            ));
        }
    }
    r
}

/// Turns a settings line into the arguments of a process: the line is split at
/// every space, and a run of tokens from one that opens a double quote to the
/// first one that closes one becomes a single argument, without the quotes.
pub fn format_for_process(settings: &String) -> (r: Vec<String>)
    requires
        !process_args_fail(settings@),
    ensures
        string_views(r@) == process_args(settings@),
{
    let line = chars_of(settings.as_str());
    let tokens = split_chars(&line, ' ');
    let ghost t = char_vec_views(tokens@);
    let mut out: Vec<String> = Vec::new();
    let mut i: usize = 0;
    let n = tokens.len();
    assert(t.skip(0) == t);
    while i < n
        invariant
            t == char_vec_views(tokens@),
            t == split_spec(settings@, ' '),
            n == t.len(),
            i <= n,
            group_tokens(t) == string_views(out@) + group_tokens(t.skip(i as int)),
            !group_tokens_fails(t.skip(i as int), i == 0),
        decreases n - i,
    {
        let ghost rest = t.skip(i as int);
        let ghost before = string_views(out@);
        assert(rest[0] == t[i as int]);
        assert(rest.drop_first() == t.skip(i + 1));
        if token_opens(&tokens[i]) {
            let mut j = i;
            while j < n && !token_closes(&tokens[j])
                invariant
                    t == char_vec_views(tokens@),
                    n == t.len(),
                    i <= j <= n,
                    forall|k: int| i <= k < j ==> !closes_quote(#[trigger] t[k]),
                decreases n - j,
            {
                j += 1;
            }
            proof {
                lemma_closing_quote(rest);
            }
            if j < n {
                proof {
                    assert(closes_quote(rest[j - i]));
                    assert forall|k: int| 0 <= k < j - i implies !closes_quote(#[trigger] rest[k]) by {
                        assert(rest[k] == t[i + k]);
                    }
                    if closing_quote(rest) is None {
                        assert(!closes_quote(rest[j - i]));
                    }
                    let q = closing_quote(rest)->Some_0;
                    if q < j - i {
                        assert(rest[q] == t[i + q]);
                    }
                    if q > j - i {
                        assert(!closes_quote(rest[j - i]));
                    }
                    assert(q == j - i);
                    assert(rest.take(q + 1) =~= t.subrange(i as int, j + 1));
                    assert(rest.skip(q + 1) =~= t.skip(j + 1));
                }
                let joined = join_tokens(&tokens, i, j);
                let piece = slice_chars(&joined, 1, joined.len() - 1);
                out.push(string_of(piece.as_slice()));
                assert(string_views(out@) =~= before.push(piece@));
                assert(group_tokens(t) == string_views(out@) + group_tokens(t.skip(j + 1)));
                i = j + 1;
            } else {
                proof {
                    if closing_quote(rest) is Some {
                        let q = closing_quote(rest)->Some_0;
                        assert(rest[q] == t[i + q]);
                    }
                }
                let tok = &tokens[i];
                let piece = slice_chars(tok, 1, tok.len() - 1);
                out.push(string_of(piece.as_slice()));
                assert(string_views(out@) =~= before.push(piece@));
                i += 1;
            }
        } else {
            out.push(string_of(tokens[i].as_slice()));
            assert(string_views(out@) =~= before.push(t[i as int]));
            i += 1;
        }
    }
    assert(t.skip(n as int) =~= Seq::<Seq<char>>::empty());
    assert(string_views(out@) =~= string_views(out@) + Seq::<Seq<char>>::empty());
    out
}


/// Whether `format_for_process` fails on a settings line, decided before the
/// call.
pub fn process_args_would_fail(settings: &String) -> (r: bool)
    ensures
        r == process_args_fail(settings@),
{
    let line = chars_of(settings.as_str());
    let tokens = split_chars(&line, ' ');
    let ghost t = char_vec_views(tokens@);
    let mut i: usize = 0;
    let n = tokens.len();
    assert(t.skip(0) == t);
    while i < n
        invariant
            t == char_vec_views(tokens@),
            t == split_spec(settings@, ' '),
            n == t.len(),
            i <= n,
            group_tokens_fails(t, true) == group_tokens_fails(t.skip(i as int), i == 0),
        decreases n - i,
    {
        let ghost rest = t.skip(i as int);
        assert(rest[0] == t[i as int]);
        assert(rest.drop_first() == t.skip(i + 1));
        if token_opens(&tokens[i]) {
            let mut j = i;
            while j < n && !token_closes(&tokens[j])
                invariant
                    t == char_vec_views(tokens@),
                    n == t.len(),
                    i <= j <= n,
                    forall|k: int| i <= k < j ==> !closes_quote(#[trigger] t[k]),
                decreases n - j,
            {
                j += 1;
            }
            proof {
                lemma_closing_quote(rest);
            }
            if j < n {
                proof {
                    assert(closes_quote(rest[j - i]));
                    if closing_quote(rest) is None {
                        assert(!closes_quote(rest[j - i]));
                    }
                    let q = closing_quote(rest)->Some_0;
                    if q < j - i {
                        assert(rest[q] == t[i + q]);
                    }
                    if q > j - i {
                        assert(!closes_quote(rest[j - i]));
                    }
                    assert(q == j - i);
                    assert(rest.skip(q + 1) =~= t.skip(j + 1));
                }
                if j == i && tokens[i].len() == 1 {
                    return true;
                }
                i = j + 1;
            } else {
                proof {
                    if closing_quote(rest) is Some {
                        let q = closing_quote(rest)->Some_0;
                        assert(rest[q] == t[i + q]);
                    }
                }
                let tok = &tokens[i];
                if i != 0 || tok[tok.len() - 1] as u32 >= 128 {
                    return true;
                }
                i += 1;
            }
        } else {
            i += 1;
        }
    }
    assert(t.skip(n as int) =~= Seq::<Seq<char>>::empty());
    false
}

// ---------------------------------------------------------------------------
// Quoting arguments in a settings line
// ---------------------------------------------------------------------------

/// An argument as it is written in a settings line: a quoted one is put
/// between double quotes.
pub open spec fn render_arg(a: Seq<char>, quoted: bool) -> Seq<char> {
    if quoted {
        seq!['"'] + a + seq!['"']
    } else {
        a
    }
}

/// Arguments, each with whether it is quoted, written one after the other
/// with single spaces between them.
pub open spec fn settings_line(args: Seq<(Seq<char>, bool)>) -> Seq<char> {
    join_spec(args.map_values(|p: (Seq<char>, bool)| render_arg(p.0, p.1)), ' ')
}

/// The texts of the arguments.
pub open spec fn arg_texts(args: Seq<(Seq<char>, bool)>) -> Seq<Seq<char>> {
    args.map_values(|p: (Seq<char>, bool)| p.0)
}

/// An argument that survives being written in a settings line: it holds no
/// double quote, and it is either quoted and does not begin with a space, or
/// unquoted and holds no space.
pub open spec fn arg_fits(a: Seq<char>, quoted: bool) -> bool {
    &&& !a.contains('"')
    &&& if quoted {
        a.len() == 0 || a[0] != ' '
    } else {
        !a.contains(' ')
    }
}

proof fn lemma_closing_quote_at(ts: Seq<Seq<char>>, k: int)
    requires
        0 <= k < ts.len(),
        closes_quote(ts[k]),
        forall|j: int| 0 <= j < k ==> !closes_quote(#[trigger] ts[j]),
    ensures
        closing_quote(ts) == Some(k),
    decreases k,
{
    if k > 0 {
        assert(!closes_quote(ts[0]));
        assert forall|j: int| 0 <= j < k - 1 implies !closes_quote(#[trigger] ts.drop_first()[j]) by {
            assert(ts.drop_first()[j] == ts[j + 1]);
        }
        lemma_closing_quote_at(ts.drop_first(), k - 1);
    }
}

/// One argument, written in a line and split at spaces, groups back into
/// itself, whatever tokens follow it.
proof fn lemma_group_one(a: Seq<char>, quoted: bool, rest: Seq<Seq<char>>, at_start: bool)
    requires
        arg_fits(a, quoted),
    ensures
        group_tokens(split_spec(render_arg(a, quoted), ' ') + rest) == seq![a] + group_tokens(
            rest,
        ),
        group_tokens_fails(split_spec(render_arg(a, quoted), ' ') + rest, at_start)
            == group_tokens_fails(rest, false),
{
    if !quoted {
        lemma_split_without_sep(a, ' ');
        let ts = seq![a] + rest;
        assert(ts[0] == a);
        assert(ts.drop_first() =~= rest);
        if a.len() > 0 {
            assert(a[0] != '"') by {
                if a[0] == '"' {
                    assert(a.contains('"'));
                }
            }
        }
    } else {
        let q = seq!['"'] + a + seq!['"'];
        let p = split_spec(a, ' ');
        lemma_split_nonempty(a, ' ');
        let k = p.len() - 1;
        lemma_split_snoc(a, '"', ' ');
        let aa = split_spec(a.push('"'), ' ');
        assert(q =~= seq!['"'] + a.push('"'));
        lemma_split_cons('"', a.push('"'), ' ');
        let g = split_spec(q, ' ');
        assert(g == aa.update(0, seq!['"'] + aa[0]));
        assert(aa == p.update(k, p[k].push('"')));
        lemma_split_pieces_lack(a, ' ', '"');
        let ts = g + rest;
        assert(ts[0] == g[0]);
        // the group closes at its last token, and not before
        assert(closes_quote(g[k]));
        if k > 0 {
            assert(a.contains(' ')) by {
                if !a.contains(' ') {
                    lemma_split_without_sep(a, ' ');
                }
            }
            lemma_split_cons(a[0], a.drop_first(), ' ');
            assert(seq![a[0]] + a.drop_first() =~= a);
            lemma_split_nonempty(a.drop_first(), ' ');
            let pd = split_spec(a.drop_first(), ' ');
            assert(p == pd.update(0, seq![a[0]] + pd[0]));
            assert(p[0] == seq![a[0]] + pd[0]);
            assert(p[0].len() >= 1);
            assert(!p[0].contains('"'));
            assert(p[0].last() != '"') by {
                if p[0].last() == '"' {
                    assert(p[0].contains('"'));
                }
            }
            assert(g[0] =~= seq!['"'] + p[0]);
            assert(g[0].last() == p[0].last());
        }
        assert forall|j: int| 0 <= j < k implies !closes_quote(#[trigger] ts[j]) by {
            assert(ts[j] == g[j]);
            if j > 0 {
                assert(g[j] == p[j]);
                assert(!p[j].contains('"'));
                if closes_quote(p[j]) {
                    assert(p[j].contains('"'));
                }
            }
        }
        assert(ts[k] == g[k]);
        lemma_closing_quote_at(ts, k);
        assert(ts.take(k + 1) =~= g);
        assert(ts.skip(k + 1) =~= rest);
        lemma_join_split(q, ' ');
        assert(strip_ends(q) =~= a);
        if k == 0 {
            assert(g[0].len() == q.len()) by {
                assert(join_spec(g, ' ') == g[0]);
            }
        }
    }
}

proof fn lemma_round_trip_from(args: Seq<(Seq<char>, bool)>, at_start: bool)
    requires
        args.len() >= 1,
        forall|i: int| 0 <= i < args.len() ==> arg_fits(#[trigger] args[i].0, args[i].1),
    ensures
        group_tokens(split_spec(settings_line(args), ' ')) == arg_texts(args),
        !group_tokens_fails(split_spec(settings_line(args), ' '), at_start),
    decreases args.len(),
{
    let r = args.map_values(|p: (Seq<char>, bool)| render_arg(p.0, p.1));
    let a = args[0].0;
    let quoted = args[0].1;
    assert(arg_fits(a, quoted));
    assert(r[0] == render_arg(a, quoted));
    let g = split_spec(render_arg(a, quoted), ' ');
    if args.len() == 1 {
        assert(settings_line(args) == r[0]);
        lemma_group_one(a, quoted, Seq::<Seq<char>>::empty(), at_start);
        assert(g + Seq::<Seq<char>>::empty() =~= g);
        assert(arg_texts(args) =~= seq![a]);
        assert(seq![a] + Seq::<Seq<char>>::empty() =~= seq![a]);
    } else {
        let tail = args.drop_first();
        assert forall|i: int| 0 <= i < tail.len() implies arg_fits(
            #[trigger] tail[i].0,
            tail[i].1,
        ) by {
            assert(tail[i] == args[i + 1]);
        }
        lemma_round_trip_from(tail, false);
        assert(tail.map_values(|p: (Seq<char>, bool)| render_arg(p.0, p.1)) =~= r.drop_first());
        assert(settings_line(args) == r[0] + seq![' '] + settings_line(tail));
        lemma_split_concat(r[0], settings_line(tail), ' ');
        let rest = split_spec(settings_line(tail), ' ');
        lemma_group_one(a, quoted, rest, at_start);
        assert(arg_texts(args) =~= seq![a] + arg_texts(tail));
    }
}

/// Arguments written in a settings line, each of them unquoted (holding no
/// space) or put between double quotes (not beginning with a space), and none
/// of them holding a double quote, are exactly what `format_for_process` makes
/// of the line again, and it does not fail on the line.
pub proof fn lemma_settings_line_round_trip(args: Seq<(Seq<char>, bool)>)
    requires
        args.len() >= 1,
        forall|i: int| 0 <= i < args.len() ==> arg_fits(#[trigger] args[i].0, args[i].1),
    ensures
        !process_args_fail(settings_line(args)),
        process_args(settings_line(args)) == arg_texts(args),
{
    lemma_round_trip_from(args, true);
}


proof fn lemma_group_plain_tokens(ts: Seq<Seq<char>>, at_start: bool)
    requires
        forall|j: int| 0 <= j < ts.len() ==> !(#[trigger] ts[j]).contains('"'),
    ensures
        group_tokens(ts) == ts,
        !group_tokens_fails(ts, at_start),
    decreases ts.len(),
{
    if ts.len() > 0 {
        if opens_quote(ts[0]) {
            assert(ts[0].contains('"'));
        }
        assert forall|j: int| 0 <= j < ts.drop_first().len() implies !(
        #[trigger] ts.drop_first()[j]).contains('"') by {
            assert(ts.drop_first()[j] == ts[j + 1]);
        }
        lemma_group_plain_tokens(ts.drop_first(), false);
        assert(seq![ts[0]] + ts.drop_first() =~= ts);
    }
}

/// A settings line without double quotes is split at every space and nothing
/// more, and `format_for_process` does not fail on it.
pub proof fn lemma_unquoted_line(settings: Seq<char>)
    requires
        !settings.contains('"'),
    ensures
        !process_args_fail(settings),
        process_args(settings) == split_spec(settings, ' '),
{
    lemma_split_pieces_lack(settings, ' ', '"');
    lemma_group_plain_tokens(split_spec(settings, ' '), true);
}

}
