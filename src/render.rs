//! Pure parts of rendering: where an output goes, and what a dry run shows.
use vstd::prelude::*;
use crate::text::{has_any, last_of, rfind_either};

verus! {

/// The lines of a text, as `str::lines` splits it.
pub uninterp spec fn lines_of(s: Seq<char>) -> Seq<Seq<char>>;

pub open spec fn strings_view(v: Seq<String>) -> Seq<Seq<char>> {
    v.map_values(|l: String| l@)
}

/// Relies on `str::lines`: the lines of `s`, without their line endings.
#[verifier::external_body]
fn split_lines(s: &str) -> (r: Vec<String>)
    ensures
        strings_view(r@) == lines_of(s@),
{
    s.lines().map(|l| l.to_string()).collect()
}

/// How many lines a dry run shows of each output.
pub const PREVIEW_LINES: usize = 20;

/// What a dry run shows of one output: its first lines, and how many follow.
pub struct Preview {
    pub lines: Vec<String>,
    pub more: usize,
}

/// The lines a preview shows of `ls`.
pub open spec fn shown(ls: Seq<Seq<char>>) -> Seq<Seq<char>> {
    if ls.len() > PREVIEW_LINES {
        ls.subrange(0, PREVIEW_LINES as int)
    } else {
        ls
    }
}

/// How many lines of `ls` a preview leaves out.
pub open spec fn left_out(ls: Seq<Seq<char>>) -> nat {
    if ls.len() > PREVIEW_LINES {
        (ls.len() - PREVIEW_LINES) as nat
    } else {
        0
    }
}

/// The preview of an output already split into lines.
pub fn preview_of_lines(lines: &Vec<String>) -> (r: Preview)
    ensures
        strings_view(r.lines@) == shown(strings_view(lines@)),
        r.more == left_out(strings_view(lines@)),
{
    let n = lines.len();
    let k = if n > PREVIEW_LINES { PREVIEW_LINES } else { n };
    let mut head: Vec<String> = Vec::new();
    let mut i: usize = 0;
    while i < k
        invariant
            k <= n,
            n == lines@.len(),
            k == if n > PREVIEW_LINES { PREVIEW_LINES } else { n },
            i <= k,
            head@.len() == i,
            forall|j: int| 0 <= j < i ==> (#[trigger] head@[j])@ == lines@[j]@,
        decreases k - i,
    {
        head.push(lines[i].clone());
        i = i + 1;
    }
    proof {
        assert(strings_view(head@) =~= shown(strings_view(lines@)));
    }
    Preview { lines: head, more: n - k }
}

/// The preview of a rendered output: its first twenty lines, and the count
/// of the lines after them.
pub fn preview(output: &str) -> (r: Preview)
    ensures
        strings_view(r.lines@) == shown(lines_of(output@)),
        r.more == left_out(lines_of(output@)),
{
    let lines = split_lines(output);
    preview_of_lines(&lines)
}

/// The last path component of a template name.
pub open spec fn file_part(s: Seq<char>) -> Seq<char> {
    if has_any(s, '/', '/') {
        s.subrange(last_of(s, '/', '/') + 1, s.len() as int)
    } else {
        s
    }
}

/// A file name without its last extension; a name whose only dot leads it
/// is kept whole.
pub open spec fn stem(s: Seq<char>) -> Seq<char> {
    if has_any(s, '.', '.') && last_of(s, '.', '.') > 0 {
        s.subrange(0, last_of(s, '.', '.'))
    } else {
        s
    }
}

/// The output file name for a template: its file name with the template
/// suffix taken off. Every output goes to one flat directory.
pub fn output_file_name(template_name: &str) -> (r: String)
    ensures
        r@ == stem(file_part(template_name@)),
{
    let n = template_name.unicode_len();
    let file = match rfind_either(template_name, '/', '/') {
        Some(k) => template_name.substring_char(k + 1, n),
        None => template_name,
    };
    match rfind_either(file, '.', '.') {
        Some(d) => {
            if d > 0 {
                file.substring_char(0, d).to_string()
            } else {
                file.to_string()
            }
        },
        None => file.to_string(),
    }
}

} // verus!
