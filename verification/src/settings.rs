//! The command lines given to the encoder and to the tools around it.
use vstd::prelude::*;

use crate::text::{
    lacks, lemma_replace_after_free_prefix, lemma_replace_single, lemma_replace_untouched,
    replace_all, replace_spec,
};

verus! {

/// A text between double quotes.
pub open spec fn quoted(s: Seq<char>) -> Seq<char> {
    seq!['"'] + s + seq!['"']
}

/// The encoder settings with their placeholders filled in, one after the other:
/// `INPUT` by the quoted input file, `SPEED`, `CRF`, `WORKER_NUM`, and `OUTPUT`
/// by the quoted output file.
pub open spec fn encoding_settings_spec(
    settings: Seq<char>,
    input_file: Seq<char>,
    speed: Seq<char>,
    crf: Seq<char>,
    worker_num: Seq<char>,
    output_file: Seq<char>,
) -> Seq<char> {
    let a = replace_spec(settings, "INPUT"@, quoted(input_file));
    let b = replace_spec(a, "SPEED"@, speed);
    let c = replace_spec(b, "CRF"@, crf);
    let d = replace_spec(c, "WORKER_NUM"@, worker_num);
    replace_spec(d, "OUTPUT"@, quoted(output_file))
}

/// A text between double quotes.
fn quote(s: &str) -> (r: String)
    ensures
        r@ == quoted(s@),
{
    let mut r = "\"".to_owned();
    r.append(s);
    r.append("\"");
    proof {
        reveal_strlit("\"");
    }
    assert(r@ =~= quoted(s@));
    r
}

/// Fills the placeholders of the encoder settings: `INPUT`, `SPEED`, `CRF`,
/// `WORKER_NUM` and `OUTPUT`, in that order, each occurrence of one of them
/// replaced by its value, the two files put between double quotes.
pub fn format_encoding_settings(
    settings: &str,
    input_file: &String,
    speed: &str,
    crf: &str,
    worker_num: &str,
    output_file: &String,
) -> (r: String)
    ensures
        r@ == encoding_settings_spec(
            settings@,
            input_file@,
            speed@,
            crf@,
            worker_num@,
            output_file@,
        ),
{
    let final_string = replace_all(settings, "INPUT", quote(input_file.as_str()).as_str());
    let final_string = replace_all(final_string.as_str(), "SPEED", speed);
    let final_string = replace_all(final_string.as_str(), "CRF", crf);
    let final_string = replace_all(final_string.as_str(), "WORKER_NUM", worker_num);
    replace_all(final_string.as_str(), "OUTPUT", quote(output_file.as_str()).as_str())
}

/// Where a clip is kept.
pub fn clip_source_path(clip_name: &str) -> (r: String)
    ensures
        r@ == "output_helper/clips/"@ + clip_name@,
{
    let mut r = "output_helper/clips/".to_owned();
    r.append(clip_name);
    r
}

/// Where the encode of a clip is written.
pub fn clip_encoded_path(clip_name: &str) -> (r: String)
    ensures
        r@ == "output_helper/clips_encoded/"@ + clip_name@,
{
    let mut r = "output_helper/clips_encoded/".to_owned();
    r.append(clip_name);
    r
}

/// The index file that the metric tool leaves beside an encoded clip.
pub fn encoded_index_path(encoded_clip: &str) -> (r: String)
    ensures
        r@ == encoded_clip@ + ".lwi"@,
{
    let mut r = encoded_clip.to_owned();
    r.append(".lwi");
    r
}

/// The arguments of the SSIMULACRA2 run that compares a clip with its encode,
/// started through `runp` unless the program already runs inside Arch WSL.
pub fn ssim2_settings(
    ssim2_path: &str,
    worker_num: &str,
    original_clip_path: &str,
    encoded_clip_path: &str,
    inside_arch_wsl: bool,
) -> (r: String)
    ensures
        r@ == (if inside_arch_wsl {
            Seq::<char>::empty()
        } else {
            "runp "@
        }) + ssim2_path@ + " video -f "@ + worker_num@ + " "@ + quoted(original_clip_path@)
            + " "@ + quoted(encoded_clip_path@),
{
    let mut r = if inside_arch_wsl {
        String::new()
    } else {
        "runp ".to_owned()
    };
    r.append(ssim2_path);
    r.append(" video -f ");
    r.append(worker_num);
    r.append(" ");
    r.append(quote(original_clip_path).as_str());
    r.append(" ");
    r.append(quote(encoded_clip_path).as_str());
    r
}

/// The arguments of the `ffprobe` run that reads the length of a video.
pub fn ffprobe_settings(full_video: &str) -> (r: String)
    ensures
        r@ == "-v error -select_streams v:0 -show_entries format=duration -of default=noprint_wrappers=1:nokey=1 "@
            + quoted(full_video@),
{
    let mut r =
        "-v error -select_streams v:0 -show_entries format=duration -of default=noprint_wrappers=1:nokey=1 ".to_owned();
    r.append(quote(full_video).as_str());
    r
}


/// Whether a text holds no capital ASCII letter; the placeholders are made of
/// capitals (and `_`), so such a text can hold no part of one.
pub open spec fn no_capitals(s: Seq<char>) -> bool {
    forall|k: int| 0 <= k < s.len() ==> !('A' <= #[trigger] s[k] <= 'Z')
}

proof fn lemma_lacks_capital(s: Seq<char>, c: char)
    requires
        no_capitals(s),
        'A' <= c <= 'Z',
    ensures
        lacks(s, c),
{
    assert forall|k: int| 0 <= k < s.len() implies s[k] != c by {
        assert(!('A' <= s[k] <= 'Z'));
    }
}

proof fn lemma_lacks_concat(a: Seq<char>, b: Seq<char>, c: char)
    requires
        lacks(a, c),
        lacks(b, c),
    ensures
        lacks(a + b, c),
{
    assert forall|k: int| 0 <= k < (a + b).len() implies (a + b)[k] != c by {
        if k < a.len() {
            assert((a + b)[k] == a[k]);
        } else {
            assert((a + b)[k] == b[k - a.len()]);
        }
    }
}

proof fn lemma_no_capitals_concat(a: Seq<char>, b: Seq<char>)
    requires
        no_capitals(a),
        no_capitals(b),
    ensures
        no_capitals(a + b),
{
    assert forall|k: int| 0 <= k < (a + b).len() implies !('A' <= #[trigger] (a + b)[k] <= 'Z') by {
        if k < a.len() {
            assert((a + b)[k] == a[k]);
        } else {
            assert((a + b)[k] == b[k - a.len()]);
        }
    }
}

/// A text without capitals goes through the stages that follow its own
/// placeholder's unchanged.
proof fn lemma_stages_untouched(s: Seq<char>, pat: Seq<char>, to: Seq<char>)
    requires
        no_capitals(s),
        pat.len() > 0,
        'A' <= pat[0] <= 'Z',
    ensures
        replace_spec(s, pat, to) == s,
{
    lemma_lacks_capital(s, pat[0]);
    lemma_replace_untouched(s, pat, to);
}

/// The template `t1 + p + t2` before the stage of `p`: a stage whose
/// placeholder begins with a character that `p` lacks changes nothing.
proof fn lemma_earlier_stage(t1: Seq<char>, p: Seq<char>, t2: Seq<char>, q: Seq<char>, to: Seq<char>)
    requires
        no_capitals(t1),
        no_capitals(t2),
        q.len() > 0,
        'A' <= q[0] <= 'Z',
        lacks(p, q[0]),
    ensures
        replace_spec(t1 + p + t2, q, to) == t1 + p + t2,
{
    lemma_lacks_capital(t1, q[0]);
    lemma_lacks_capital(t2, q[0]);
    lemma_lacks_concat(t1, p, q[0]);
    lemma_lacks_concat(t1 + p, t2, q[0]);
    lemma_replace_untouched(t1 + p + t2, q, to);
}

/// The stage of `p` itself fills the one placeholder between the two parts.
proof fn lemma_own_stage(t1: Seq<char>, p: Seq<char>, t2: Seq<char>, to: Seq<char>)
    requires
        no_capitals(t1),
        no_capitals(t2),
        no_capitals(to),
        p.len() > 0,
        'A' <= p[0] <= 'Z',
    ensures
        replace_spec(t1 + p + t2, p, to) == t1 + to + t2,
        no_capitals(t1 + to + t2),
{
    lemma_lacks_capital(t1, p[0]);
    lemma_lacks_capital(t2, p[0]);
    lemma_replace_single(t1, p, t2, to);
    lemma_no_capitals_concat(t1, to);
    lemma_no_capitals_concat(t1 + to, t2);
}

/// Every placeholder is filled wherever it stands: a template made of any
/// text, one placeholder and any text (none of them, nor the values, holding
/// a capital letter, so that no other placeholder can appear) becomes the two
/// texts with the placeholder's value between them; the files are put between
/// double quotes.
pub proof fn lemma_every_placeholder_filled(
    t1: Seq<char>,
    t2: Seq<char>,
    input_file: Seq<char>,
    speed: Seq<char>,
    crf: Seq<char>,
    worker_num: Seq<char>,
    output_file: Seq<char>,
)
    requires
        no_capitals(t1),
        no_capitals(t2),
        no_capitals(input_file),
        no_capitals(speed),
        no_capitals(crf),
        no_capitals(worker_num),
        no_capitals(output_file),
    ensures
        encoding_settings_spec(t1 + "INPUT"@ + t2, input_file, speed, crf, worker_num, output_file)
            == t1 + seq!['"'] + input_file + seq!['"'] + t2,
        encoding_settings_spec(t1 + "SPEED"@ + t2, input_file, speed, crf, worker_num, output_file)
            == t1 + speed + t2,
        encoding_settings_spec(t1 + "CRF"@ + t2, input_file, speed, crf, worker_num, output_file)
            == t1 + crf + t2,
        encoding_settings_spec(
            t1 + "WORKER_NUM"@ + t2,
            input_file,
            speed,
            crf,
            worker_num,
            output_file,
        ) == t1 + worker_num + t2,
        encoding_settings_spec(t1 + "OUTPUT"@ + t2, input_file, speed, crf, worker_num, output_file)
            == t1 + seq!['"'] + output_file + seq!['"'] + t2,
{
    reveal_strlit("INPUT");
    reveal_strlit("SPEED");
    reveal_strlit("CRF");
    reveal_strlit("WORKER_NUM");
    reveal_strlit("OUTPUT");
    let qi = quoted(input_file);
    let qo = quoted(output_file);
    assert(no_capitals(qi)) by {
        assert forall|k: int| 0 <= k < qi.len() implies !('A' <= #[trigger] qi[k] <= 'Z') by {
            if 0 < k < qi.len() - 1 {
                assert(qi[k] == input_file[k - 1]);
            }
        }
    }
    assert(no_capitals(qo)) by {
        assert forall|k: int| 0 <= k < qo.len() implies !('A' <= #[trigger] qo[k] <= 'Z') by {
            if 0 < k < qo.len() - 1 {
                assert(qo[k] == output_file[k - 1]);
            }
        }
    }
    let pi = "INPUT"@;
    let ps = "SPEED"@;
    let pc = "CRF"@;
    let pw = "WORKER_NUM"@;
    let po = "OUTPUT"@;
    assert(lacks(ps, 'I'));
    assert(lacks(pc, 'I'));
    assert(lacks(pc, 'S'));
    assert(lacks(pw, 'I'));
    assert(lacks(pw, 'S'));
    assert(lacks(pw, 'C'));
    assert(lacks(po, 'I'));
    assert(lacks(po, 'S'));
    assert(lacks(po, 'C'));
    assert(lacks(po, 'W'));
    // INPUT
    lemma_own_stage(t1, pi, t2, qi);
    let r = t1 + qi + t2;
    lemma_stages_untouched(r, ps, speed);
    lemma_stages_untouched(r, pc, crf);
    lemma_stages_untouched(r, pw, worker_num);
    lemma_stages_untouched(r, po, qo);
    assert(r =~= t1 + seq!['"'] + input_file + seq!['"'] + t2);
    // SPEED
    lemma_earlier_stage(t1, ps, t2, pi, qi);
    lemma_own_stage(t1, ps, t2, speed);
    let r = t1 + speed + t2;
    lemma_stages_untouched(r, pc, crf);
    lemma_stages_untouched(r, pw, worker_num);
    lemma_stages_untouched(r, po, qo);
    // CRF
    lemma_earlier_stage(t1, pc, t2, pi, qi);
    lemma_earlier_stage(t1, pc, t2, ps, speed);
    lemma_own_stage(t1, pc, t2, crf);
    let r = t1 + crf + t2;
    lemma_stages_untouched(r, pw, worker_num);
    lemma_stages_untouched(r, po, qo);
    // WORKER_NUM
    lemma_earlier_stage(t1, pw, t2, pi, qi);
    lemma_earlier_stage(t1, pw, t2, ps, speed);
    lemma_earlier_stage(t1, pw, t2, pc, crf);
    lemma_own_stage(t1, pw, t2, worker_num);
    let r = t1 + worker_num + t2;
    lemma_stages_untouched(r, po, qo);
    // OUTPUT
    lemma_earlier_stage(t1, po, t2, pi, qi);
    lemma_earlier_stage(t1, po, t2, ps, speed);
    lemma_earlier_stage(t1, po, t2, pc, crf);
    lemma_earlier_stage(t1, po, t2, pw, worker_num);
    lemma_own_stage(t1, po, t2, qo);
    assert(t1 + qo + t2 =~= t1 + seq!['"'] + output_file + seq!['"'] + t2);
}


/// The placeholders of the encoder settings, numbered in the order they are
/// filled.
pub open spec fn placeholder(h: int) -> Seq<char> {
    if h == 0 {
        "INPUT"@
    } else if h == 1 {
        "SPEED"@
    } else if h == 2 {
        "CRF"@
    } else if h == 3 {
        "WORKER_NUM"@
    } else {
        "OUTPUT"@
    }
}

/// A template: the texts with the numbered placeholders between them,
/// `texts[0] + placeholder(holes[0]) + texts[1] + ...`.
pub open spec fn template_of(texts: Seq<Seq<char>>, holes: Seq<int>) -> Seq<char>
    decreases holes.len(),
{
    if holes.len() == 0 {
        texts[0]
    } else {
        texts[0] + placeholder(holes[0]) + template_of(texts.drop_first(), holes.drop_first())
    }
}

/// The same texts with the value of each placeholder between them.
pub open spec fn filled_of(texts: Seq<Seq<char>>, holes: Seq<int>, values: Seq<Seq<char>>) -> Seq<
    char,
>
    decreases holes.len(),
{
    if holes.len() == 0 {
        texts[0]
    } else {
        texts[0] + values[holes[0]] + filled_of(texts.drop_first(), holes.drop_first(), values)
    }
}

/// The template after the stages before `k`: the placeholders numbered below
/// `k` filled, the others still in place.
spec fn partly_filled(texts: Seq<Seq<char>>, holes: Seq<int>, values: Seq<Seq<char>>, k: int) -> Seq<
    char,
>
    decreases holes.len(),
{
    if holes.len() == 0 {
        texts[0]
    } else {
        texts[0] + (if holes[0] < k {
            values[holes[0]]
        } else {
            placeholder(holes[0])
        }) + partly_filled(texts.drop_first(), holes.drop_first(), values, k)
    }
}

proof fn lemma_placeholder_shape(h: int)
    requires
        0 <= h < 5,
    ensures
        placeholder(h).len() > 0,
        'A' <= placeholder(h)[0] <= 'Z',
        forall|g: int| h < g < 5 ==> lacks(#[trigger] placeholder(g), placeholder(h)[0]),
{
    reveal_strlit("INPUT");
    reveal_strlit("SPEED");
    reveal_strlit("CRF");
    reveal_strlit("WORKER_NUM");
    reveal_strlit("OUTPUT");
    assert(lacks("SPEED"@, 'I'));
    assert(lacks("CRF"@, 'I'));
    assert(lacks("CRF"@, 'S'));
    assert(lacks("WORKER_NUM"@, 'I'));
    assert(lacks("WORKER_NUM"@, 'S'));
    assert(lacks("WORKER_NUM"@, 'C'));
    assert(lacks("OUTPUT"@, 'I'));
    assert(lacks("OUTPUT"@, 'S'));
    assert(lacks("OUTPUT"@, 'C'));
    assert(lacks("OUTPUT"@, 'W'));
}

proof fn lemma_partly_filled_ends(texts: Seq<Seq<char>>, holes: Seq<int>, values: Seq<Seq<char>>)
    requires
        texts.len() == holes.len() + 1,
        forall|i: int| 0 <= i < holes.len() ==> 0 <= #[trigger] holes[i] < 5,
    ensures
        partly_filled(texts, holes, values, 0) == template_of(texts, holes),
        partly_filled(texts, holes, values, 5) == filled_of(texts, holes, values),
    decreases holes.len(),
{
    if holes.len() > 0 {
        assert(0 <= holes[0] < 5);
        assert forall|i: int| 0 <= i < holes.drop_first().len() implies 0 <= #[trigger] holes.drop_first()[i] < 5 by {
            assert(holes.drop_first()[i] == holes[i + 1]);
        }
        lemma_partly_filled_ends(texts.drop_first(), holes.drop_first(), values);
    }
}

/// One stage fills every occurrence of its placeholder, and only those.
proof fn lemma_stage(texts: Seq<Seq<char>>, holes: Seq<int>, values: Seq<Seq<char>>, k: int)
    requires
        0 <= k < 5,
        texts.len() == holes.len() + 1,
        values.len() == 5,
        forall|i: int| 0 <= i < holes.len() ==> 0 <= #[trigger] holes[i] < 5,
        forall|i: int| 0 <= i < texts.len() ==> no_capitals(#[trigger] texts[i]),
        forall|i: int| 0 <= i < 5 ==> no_capitals(#[trigger] values[i]),
    ensures
        replace_spec(partly_filled(texts, holes, values, k), placeholder(k), values[k])
            == partly_filled(texts, holes, values, k + 1),
    decreases holes.len(),
{
    let p = placeholder(k);
    lemma_placeholder_shape(k);
    assert(no_capitals(texts[0]));
    lemma_lacks_capital(texts[0], p[0]);
    if holes.len() == 0 {
        lemma_replace_untouched(texts[0], p, values[k]);
    } else {
        let h = holes[0];
        assert(0 <= h < 5);
        let seg = if h < k {
            values[h]
        } else {
            placeholder(h)
        };
        let rest = partly_filled(texts.drop_first(), holes.drop_first(), values, k);
        assert forall|i: int| 0 <= i < holes.drop_first().len() implies 0 <= #[trigger] holes.drop_first()[i] < 5 by {
            assert(holes.drop_first()[i] == holes[i + 1]);
        }
        assert forall|i: int| 0 <= i < texts.drop_first().len() implies no_capitals(#[trigger] texts.drop_first()[i]) by {
            assert(texts.drop_first()[i] == texts[i + 1]);
        }
        lemma_stage(texts.drop_first(), holes.drop_first(), values, k);
        let rest2 = partly_filled(texts.drop_first(), holes.drop_first(), values, k + 1);
        assert(texts[0] + seg + rest =~= texts[0] + (seg + rest));
        lemma_replace_after_free_prefix(texts[0], seg + rest, p, values[k]);
        if h == k {
            assert((seg + rest).take(p.len() as int) =~= p);
            assert((seg + rest).skip(p.len() as int) =~= rest);
            assert(texts[0] + (values[k] + rest2) =~= texts[0] + values[k] + rest2);
        } else {
            if h < k {
                assert(no_capitals(values[h]));
                lemma_lacks_capital(values[h], p[0]);
            } else {
                assert(lacks(placeholder(h), p[0]));
            }
            lemma_replace_after_free_prefix(seg, rest, p, values[k]);
            assert(texts[0] + (seg + rest2) =~= texts[0] + seg + rest2);
        }
    }
}

/// Every placeholder is filled wherever and however often it stands: a
/// template made of texts and placeholders (the texts and the values holding
/// no capital letter, so that no placeholder can arise from them) becomes the
/// same texts with each placeholder's value in its place, the files between
/// double quotes.
pub proof fn lemma_template_filled(
    texts: Seq<Seq<char>>,
    holes: Seq<int>,
    input_file: Seq<char>,
    speed: Seq<char>,
    crf: Seq<char>,
    worker_num: Seq<char>,
    output_file: Seq<char>,
)
    requires
        texts.len() == holes.len() + 1,
        forall|i: int| 0 <= i < holes.len() ==> 0 <= #[trigger] holes[i] < 5,
        forall|i: int| 0 <= i < texts.len() ==> no_capitals(#[trigger] texts[i]),
        no_capitals(input_file),
        no_capitals(speed),
        no_capitals(crf),
        no_capitals(worker_num),
        no_capitals(output_file),
    ensures
        encoding_settings_spec(
            template_of(texts, holes),
            input_file,
            speed,
            crf,
            worker_num,
            output_file,
        ) == filled_of(
            texts,
            holes,
            seq![
                seq!['"'] + input_file + seq!['"'],
                speed,
                crf,
                worker_num,
                seq!['"'] + output_file + seq!['"'],
            ],
        ),
{
    let qi = seq!['"'] + input_file + seq!['"'];
    let qo = seq!['"'] + output_file + seq!['"'];
    assert(qi == quoted(input_file));
    assert(qo == quoted(output_file));
    assert(no_capitals(qi)) by {
        assert forall|k: int| 0 <= k < qi.len() implies !('A' <= #[trigger] qi[k] <= 'Z') by {
            if 0 < k < qi.len() - 1 {
                assert(qi[k] == input_file[k - 1]);
            }
        }
    }
    assert(no_capitals(qo)) by {
        assert forall|k: int| 0 <= k < qo.len() implies !('A' <= #[trigger] qo[k] <= 'Z') by {
            if 0 < k < qo.len() - 1 {
                assert(qo[k] == output_file[k - 1]);
            }
        }
    }
    let values = seq![qi, speed, crf, worker_num, qo];
    assert forall|i: int| 0 <= i < 5 implies no_capitals(#[trigger] values[i]) by {}
    lemma_partly_filled_ends(texts, holes, values);
    lemma_stage(texts, holes, values, 0);
    lemma_stage(texts, holes, values, 1);
    lemma_stage(texts, holes, values, 2);
    lemma_stage(texts, holes, values, 3);
    lemma_stage(texts, holes, values, 4);
    reveal_strlit("INPUT");
    reveal_strlit("SPEED");
    reveal_strlit("CRF");
    reveal_strlit("WORKER_NUM");
    reveal_strlit("OUTPUT");
}

}
