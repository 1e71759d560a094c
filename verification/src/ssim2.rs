//! Reading the score out of what the SSIMULACRA2 tool prints.
use vstd::prelude::*;

use crate::text::{
    chars_of, char_vec_views, find_char, first_index_of, lemma_first_index_of_concat,
    lemma_split_concat, lemma_split_nonempty, lemma_split_without_sep, split_chars, split_spec,
    string_of,
};

verus! {

/// The score text in the tool's output: the last line is empty, so the line
/// before it is read, and the text from the second character after its first
/// `:` up to its first `.` is taken. `None` where the output has fewer than
/// two lines, the line lacks a `:` or a `.`, the `.` comes before the second
/// character after the `:`, or the character right after the `:` takes more
/// than one byte in UTF-8.
pub open spec fn ssim2_score_text_spec(output: Seq<char>) -> Option<Seq<char>> {
    let lines = split_spec(output, '\n');
    if lines.len() < 2 {
        None
    } else {
        let line = lines[lines.len() - 2];
        match (first_index_of(line, ':'), first_index_of(line, '.')) {
            (Some(c), Some(d)) => {
                if c + 2 <= d && (line[c + 1] as u32) < 128 {
                    Some(line.subrange(c + 2, d))
                } else {
                    None
                }
            },
            _ => None,
        }
    }
}

/// The score text that the SSIMULACRA2 tool printed, as `ssim2_score_text_spec`
/// reads it.
pub fn parse_ssim2_output(output: &str) -> (r: Option<String>)
    ensures
        match r {
            Some(t) => ssim2_score_text_spec(output@) == Some(t@),
            None => ssim2_score_text_spec(output@) is None,
        },
{
    let cs = chars_of(output);
    let lines = split_chars(&cs, '\n');
    let ghost views = char_vec_views(lines@);
    if lines.len() < 2 {
        return None;
    }
    let line = &lines[lines.len() - 2];
    assert(line@ == views[views.len() - 2]);
    let c = match find_char(line, ':') {
        Some(c) => c,
        None => return None,
    };
    let d = match find_char(line, '.') {
        Some(d) => d,
        None => return None,
    };
    if c >= d || d - c < 2 {
        return None;
    }
    if (line[c + 1] as u32) >= 128 {
        return None;
    }
    let mut piece: Vec<char> = Vec::new();
    let mut k = c + 2;
    while k < d
        invariant
            c + 2 <= k <= d,
            d < line@.len(),
            piece@ == line@.subrange(c + 2, k as int),
        decreases d - k,
    {
        piece.push(line[k]);
        assert(line@.subrange(c + 2, k + 1) == line@.subrange(c + 2, k as int).push(
            line@[k as int],
        ));
        k += 1;
    }
    Some(string_of(piece.as_slice()))
}


proof fn lemma_lines_of_last_line(l: Seq<char>)
    requires
        !l.contains('\n'),
    ensures
        split_spec(l + seq!['\n'], '\n') == seq![l, Seq::<char>::empty()],
{
    let s = l + seq!['\n'];
    assert(s.drop_last() =~= l);
    assert(s.last() == '\n');
    lemma_split_without_sep(l, '\n');
    assert(seq![l].push(Seq::<char>::empty()) =~= seq![l, Seq::<char>::empty()]);
}

/// The score is read from the last line of the output alone: whatever lines
/// come before it change nothing.
pub proof fn lemma_score_from_last_line(earlier: Seq<char>, last: Seq<char>)
    requires
        !last.contains('\n'),
    ensures
        ssim2_score_text_spec(earlier + seq!['\n'] + last + seq!['\n'])
            == ssim2_score_text_spec(last + seq!['\n']),
{
    lemma_lines_of_last_line(last);
    lemma_split_concat(earlier, last + seq!['\n'], '\n');
    lemma_split_nonempty(earlier, '\n');
    assert(earlier + seq!['\n'] + last + seq!['\n'] =~= earlier + seq!['\n'] + (last + seq![
        '\n',
    ]));
    let lines = split_spec(earlier, '\n') + seq![last, Seq::<char>::empty()];
    assert(lines[lines.len() - 2] == last);
}

/// A last line `label: score.fraction` gives the score text between `: ` and
/// the first `.`, where the label holds no `:` and no `.`, and the score no `.`.
pub proof fn lemma_score_of_line(label: Seq<char>, score: Seq<char>, fraction: Seq<char>)
    requires
        !label.contains(':'),
        !label.contains('.'),
        !label.contains('\n'),
        !score.contains('.'),
        !score.contains('\n'),
        !fraction.contains('\n'),
    ensures
        ssim2_score_text_spec(label + seq![':', ' '] + score + seq!['.'] + fraction + seq!['\n'])
            == Some(score),
{
    let head = label + seq![':', ' '] + score;
    let line = head + seq!['.'] + fraction;
    assert(!line.contains('\n')) by {
        if line.contains('\n') {
            let k = choose|k: int| 0 <= k < line.len() && line[k] == '\n';
            if k < label.len() {
                assert(label[k] == '\n');
            } else if k < label.len() + 2 {
            } else if k < head.len() {
                assert(score[k - label.len() - 2] == '\n');
            } else if k == head.len() {
            } else {
                assert(fraction[k - head.len() - 1] == '\n');
            }
        }
    }
    lemma_lines_of_last_line(line);
    assert(label + seq![':', ' '] + score + seq!['.'] + fraction + seq!['\n'] =~= line + seq![
        '\n',
    ]);
    // the first ':' ends the label
    assert(line =~= label + (seq![':', ' '] + score + seq!['.'] + fraction));
    lemma_first_index_of_concat(label, seq![':', ' '] + score + seq!['.'] + fraction, ':');
    assert((seq![':', ' '] + score + seq!['.'] + fraction)[0] == ':');
    assert(first_index_of(seq![':', ' '] + score + seq!['.'] + fraction, ':') == Some(0int));
    // the first '.' ends the score
    assert(!head.contains('.')) by {
        if head.contains('.') {
            let k = choose|k: int| 0 <= k < head.len() && head[k] == '.';
            if k < label.len() {
                assert(label[k] == '.');
            } else if k < label.len() + 2 {
            } else {
                assert(score[k - label.len() - 2] == '.');
            }
        }
    }
    assert(line =~= head + (seq!['.'] + fraction));
    lemma_first_index_of_concat(head, seq!['.'] + fraction, '.');
    assert((seq!['.'] + fraction)[0] == '.');
    assert(first_index_of(seq!['.'] + fraction, '.') == Some(0int));
    let c = label.len() as int;
    assert(line[c + 1] == ' ');
    assert(line.subrange(c + 2, head.len() as int) =~= score);
}

}
