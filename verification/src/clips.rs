//! Cutting the video into the clips whose CRF is searched.
use vstd::prelude::*;

use crate::decimal::{
    i32_text, int_text, is_digit, lemma_digits_of, lemma_i32_text_round_trip,
    parse_i32_chars, parse_i32_spec,
};
use crate::settings::{clip_source_path, quoted};
use crate::text::{chars_of, find_char, first_index_of, lemma_first_index_of_concat};

verus! {

/// The length in whole seconds that `ffprobe` printed: the text before the
/// first `.`, read as an `i32`.
pub open spec fn video_length_spec(probe_output: Seq<char>) -> Option<int> {
    match first_index_of(probe_output, '.') {
        Some(d) => parse_i32_spec(probe_output.take(d)),
        None => None,
    }
}

/// Reads the length of the video, in whole seconds, from what `ffprobe`
/// printed; `None` where there is no `.` or the text before it is no `i32`.
pub fn parse_video_length(probe_output: &str) -> (r: Option<i32>)
    ensures
        match r {
            Some(v) => video_length_spec(probe_output@) == Some(v as int),
            None => video_length_spec(probe_output@) is None,
        },
{
    let cs = chars_of(probe_output);
    match find_char(&cs, '.') {
        None => None,
        Some(d) => {
            let mut head: Vec<char> = Vec::new();
            let mut i: usize = 0;
            while i < d
                invariant
                    d <= cs@.len(),
                    i <= d,
                    head@ == cs@.take(i as int),
                decreases d - i,
            {
                head.push(cs[i]);
                assert(cs@.take(i + 1) == cs@.take(i as int).push(cs@[i as int]));
                i += 1;
            }
            parse_i32_chars(&head)
        },
    }
}

/// The file name of the clip with the given index, which starts at `start`.
pub open spec fn clip_name_spec(start: int, clip_length: int, index: int) -> Seq<char> {
    int_text(start) + "-"@ + int_text(start + clip_length) + "-"@ + int_text(index) + ".mkv"@
}

/// The `ffmpeg` arguments that copy a clip out of the full video.
pub open spec fn clip_extract_spec(
    start: int,
    full_video: Seq<char>,
    clip_length: int,
    clip_name: Seq<char>,
) -> Seq<char> {
    "-ss "@ + int_text(start) + " -i "@ + quoted(full_video) + " -c copy -t "@ + int_text(
        clip_length,
    ) + " "@ + quoted("output_helper/clips/"@ + clip_name)
}

/// How many clips a video of the given length yields when a clip starts every
/// `step` seconds: one for each start before the end of the video.
pub open spec fn clip_count(video_length: int, step: int) -> int {
    if video_length <= 0 {
        0
    } else {
        (video_length - 1) / step + 1
    }
}

/// Whether cutting the clips stays within `i32`: a video shorter than a clip is
/// not cut; otherwise, where clips start at all, the step between them
/// (`clip_length + interval`) is positive, and the last start plus the clip
/// length, or plus the step, fits in an `i32`.
pub open spec fn clip_plan_fits(video_length: int, clip_length: int, interval: int) -> bool {
    ||| video_length < clip_length
    ||| video_length <= 0
    ||| {
        let step = clip_length + interval;
        let last = ((video_length - 1) / step) * step;
        &&& 0 < step <= i32::MAX
        &&& last + clip_length <= i32::MAX
        &&& last + step <= i32::MAX
    }
}

/// Whether cutting the clips stays within `i32`, decided before the call.
pub fn clips_fit(video_length: i32, clip_length: i32, interval: i32) -> (r: bool)
    ensures
        r == clip_plan_fits(video_length as int, clip_length as int, interval as int),
{
    if video_length < clip_length || video_length <= 0 {
        return true;
    }
    let step: i64 = clip_length as i64 + interval as i64;
    if step <= 0 || step > i32::MAX as i64 {
        return false;
    }
    let v: i64 = video_length as i64 - 1;
    let q: i64 = v / step;
    assert(q * step <= v) by (nonlinear_arith)
        requires
            v >= 0,
            step > 0,
            q == v / step,
    ;
    assert(q * step >= 0) by (nonlinear_arith)
        requires
            v >= 0,
            step > 0,
            q == v / step,
    ;
    let last: i64 = q * step;
    last + clip_length as i64 <= i32::MAX as i64 && last + step <= i32::MAX as i64
}

/// A clip to cut: its file name and the `ffmpeg` arguments that cut it.
pub struct Clip {
    pub name: String,
    pub ffmpeg_settings: String,
}

/// How the video is handled: encoded whole where it is shorter than one clip,
/// or cut into clips.
pub enum ClipPlan {
    WholeVideo,
    Clips(Vec<Clip>),
}

/// The file name of the clip with the given index, which starts at `start`.
pub fn clip_name(start: i32, clip_length: i32, index: i32) -> (r: String)
    requires
        i32::MIN <= start + clip_length <= i32::MAX,
    ensures
        r@ == clip_name_spec(start as int, clip_length as int, index as int),
{
    let mut r = i32_text(start);
    r.append("-");
    r.append(i32_text(start + clip_length).as_str());
    r.append("-");
    r.append(i32_text(index).as_str());
    r.append(".mkv");
    r
}

/// The `ffmpeg` arguments that copy the clip starting at `start` out of the
/// full video.
pub fn clip_extract_settings(start: i32, full_video: &str, clip_length: i32, clip_name: &str) -> (r:
    String)
    ensures
        r@ == clip_extract_spec(start as int, full_video@, clip_length as int, clip_name@),
{
    let mut r = "-ss ".to_owned();
    r.append(i32_text(start).as_str());
    r.append(" -i \"");
    r.append(full_video);
    r.append("\" -c copy -t ");
    r.append(i32_text(clip_length).as_str());
    r.append(" \"");
    r.append(clip_source_path(clip_name).as_str());
    r.append("\"");
    proof {
        reveal_strlit("\"");
        reveal_strlit(" -i \"");
        reveal_strlit(" -i ");
        reveal_strlit("\" -c copy -t ");
        reveal_strlit(" -c copy -t ");
        reveal_strlit(" \"");
        reveal_strlit(" ");
    }
    assert(r@ =~= clip_extract_spec(start as int, full_video@, clip_length as int, clip_name@));
    r
}

proof fn lemma_start_before_end(k: int, step: int, video_length: int)
    requires
        step > 0,
        k >= 0,
        k * step < video_length,
    ensures
        k * step <= ((video_length - 1) / step) * step,
        k <= k * step,
{
    assert(k <= (video_length - 1) / step) by (nonlinear_arith)
        requires
            step > 0,
            k >= 0,
            k * step <= video_length - 1,
    {
        if k > (video_length - 1) / step {
            assert(k >= (video_length - 1) / step + 1);
            assert(k * step >= ((video_length - 1) / step + 1) * step);
            assert(((video_length - 1) / step + 1) * step > video_length - 1);
        }
    }
    assert(k * step <= ((video_length - 1) / step) * step) by (nonlinear_arith)
        requires
            step > 0,
            k <= (video_length - 1) / step,
    ;
    assert(k <= k * step) by (nonlinear_arith)
        requires
            step > 0,
            k >= 0,
    ;
}

proof fn lemma_count_at_end(k: int, step: int, video_length: int)
    requires
        step > 0,
        k >= 1,
        video_length > 0,
        (k - 1) * step < video_length,
        video_length <= k * step,
    ensures
        k == clip_count(video_length, step),
{
    assert((video_length - 1) / step == k - 1) by (nonlinear_arith)
        requires
            step > 0,
            k >= 1,
            (k - 1) * step <= video_length - 1,
            video_length - 1 < k * step,
    {
        let q = (video_length - 1) / step;
        assert(q * step <= video_length - 1);
        assert(video_length - 1 < (q + 1) * step);
        if q < k - 1 {
            assert((q + 1) * step <= (k - 1) * step);
        }
        if q > k - 1 {
            assert(k * step <= q * step);
        }
    }
}

/// Plans the clips of a video of `video_length` seconds: none where the video
/// is shorter than one clip (it is then encoded whole); otherwise a clip of
/// `clip_length` seconds every `clip_length + interval` seconds, from the
/// start, for every start before the end of the video, each named by its
/// start, its end and its index.
pub fn plan_clips(full_video: &str, video_length: i32, clip_length: i32, interval: i32) -> (r:
    ClipPlan)
    requires
        clip_plan_fits(video_length as int, clip_length as int, interval as int),
    ensures
        video_length < clip_length ==> r is WholeVideo,
        video_length >= clip_length ==> (r matches ClipPlan::Clips(cs) && {
            let step = clip_length + interval;
            &&& cs@.len() == clip_count(video_length as int, step)
            &&& forall|k: int|
                0 <= k < cs@.len() ==> {
                    &&& (#[trigger] cs@[k]).name@ == clip_name_spec(
                        k * step,
                        clip_length as int,
                        k,
                    )
                    &&& cs@[k].ffmpeg_settings@ == clip_extract_spec(
                        k * step,
                        full_video@,
                        clip_length as int,
                        cs@[k].name@,
                    )
                }
        }),
{
    if video_length < clip_length {
        return ClipPlan::WholeVideo;
    }
    let ghost step = clip_length + interval;
    let mut clips: Vec<Clip> = Vec::new();
    let mut length_passed: i32 = 0;
    let mut index: i32 = 0;
    while length_passed < video_length
        invariant
            video_length >= clip_length,
            clip_plan_fits(video_length as int, clip_length as int, interval as int),
            step == clip_length + interval,
            0 <= index,
            index == clips@.len(),
            length_passed == index * step,
            index == 0 ==> length_passed == 0,
            video_length > 0 ==> step > 0,
            index > 0 ==> video_length > 0 && (index - 1) * step < video_length,
            forall|k: int|
                0 <= k < clips@.len() ==> {
                    &&& (#[trigger] clips@[k]).name@ == clip_name_spec(
                        k * step,
                        clip_length as int,
                        k,
                    )
                    &&& clips@[k].ffmpeg_settings@ == clip_extract_spec(
                        k * step,
                        full_video@,
                        clip_length as int,
                        clips@[k].name@,
                    )
                }
        decreases video_length - index,
    {
        assert(video_length > 0);
        assert(step > 0);
        proof {
            lemma_start_before_end(index as int, step, video_length as int);
        }
        let name = clip_name(length_passed, clip_length, index);
        let ffmpeg_settings = clip_extract_settings(
            length_passed,
            full_video,
            clip_length,
            name.as_str(),
        );
        clips.push(Clip { name, ffmpeg_settings });
        length_passed = length_passed + (clip_length + interval);
        index = index + 1;
        assert(length_passed == index * step) by (nonlinear_arith)
            requires
                length_passed == (index - 1) * step + step,
        ;
    }
    proof {
        if video_length > 0 {
            lemma_count_at_end(index as int, step, video_length as int);
        }
    }
    ClipPlan::Clips(clips)
}


/// Cutting is defined for every ordinary plan: a positive clip length no longer
/// than the video, a positive step between clip starts, and a video whose
/// length plus the clip length, or plus the step, stays within `i32`; such a
/// plan yields at least one clip.
pub proof fn lemma_ordinary_plans_fit(video_length: i32, clip_length: i32, interval: i32)
    requires
        0 < clip_length <= video_length,
        0 < clip_length + interval,
        video_length + clip_length <= i32::MAX,
        video_length + clip_length + interval <= i32::MAX,
    ensures
        clip_plan_fits(video_length as int, clip_length as int, interval as int),
        clip_count(video_length as int, clip_length + interval) >= 1,
{
    let step = clip_length + interval;
    let v = video_length - 1;
    assert(((v / step) * step) <= v) by (nonlinear_arith)
        requires
            v >= 0,
            step > 0,
    ;
    assert(v / step >= 0) by (nonlinear_arith)
        requires
            v >= 0,
            step > 0,
    ;
}


/// The length is read from all of the text before the first `.`, whatever
/// follows it.
pub proof fn lemma_video_length_whole_integer_part(t: Seq<char>, rest: Seq<char>)
    requires
        !t.contains('.'),
    ensures
        video_length_spec(t + seq!['.'] + rest) == parse_i32_spec(t),
{
    let s = t + seq!['.'] + rest;
    assert(s =~= t + (seq!['.'] + rest));
    lemma_first_index_of_concat(t, seq!['.'] + rest, '.');
    assert((seq!['.'] + rest)[0] == '.');
    assert(first_index_of(seq!['.'] + rest, '.') == Some(0int));
    assert(s.take(t.len() as int) =~= t);
}

/// What `ffprobe` prints for a video of `n` whole seconds, whatever the
/// fraction after the `.`, reads back as `n`.
pub proof fn lemma_video_length_of_duration(n: i32, fraction: Seq<char>)
    ensures
        video_length_spec(int_text(n as int) + seq!['.'] + fraction) == Some(n as int),
{
    let t = int_text(n as int);
    let m: nat = if n < 0 {
        (-n) as nat
    } else {
        n as nat
    };
    lemma_digits_of(m);
    assert(!t.contains('.')) by {
        if t.contains('.') {
            let k = choose|k: int| 0 <= k < t.len() && t[k] == '.';
            if n < 0 {
                if k > 0 {
                    assert(t[k] == crate::decimal::digits_of(m)[k - 1]);
                    assert(is_digit(crate::decimal::digits_of(m)[k - 1]));
                }
            } else {
                assert(is_digit(t[k]));
            }
        }
    }
    lemma_video_length_whole_integer_part(t, fraction);
    lemma_i32_text_round_trip(n);
}

}
