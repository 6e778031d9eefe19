//! The layout of a note's file: a metadata block between two lines that
//! are fences, a blank line, and the body. A file without the block is a
//! plain file, whose metadata is made up from its name and its first line.
use vstd::prelude::*;
use crate::text::{
    chars_of, extend, find, first_occurrence, leading_run, lemma_first_occurrence,
    lemma_first_occurrence_is, lemma_leading_run, occurs, occurs_at, replace_char, replaced,
    slice_of, string_of, trim, trimmed,
};

verus! {

/// The line that opens and closes a metadata block.
pub open spec fn fence() -> Seq<char> {
    seq!['-', '-', '-', '\n']
}

fn fence_chars() -> (f: Vec<char>)
    ensures
        f@ == fence(),
{
    let mut f: Vec<char> = Vec::new();
    f.push('-');
    f.push('-');
    f.push('-');
    f.push('\n');
    assert(f@ =~= fence());
    f
}

/// A file's text: the metadata between fences, a blank line, the body.
pub open spec fn framed(metadata: Seq<char>, body: Seq<char>) -> Seq<char> {
    fence() + metadata + fence() + seq!['\n'] + body
}

/// What stands after the closing fence, without the blank line that
/// separates the block from the body.
pub open spec fn body_after(rest: Seq<char>) -> Seq<char> {
    if rest.len() > 0 && rest[0] == '\n' {
        rest.drop_first()
    } else {
        rest
    }
}

/// A newline and a fence: a line that is a fence, with the end of the
/// line before it.
pub open spec fn closing_line() -> Seq<char> {
    seq!['\n', '-', '-', '-', '\n']
}

fn closing_chars() -> (f: Vec<char>)
    ensures
        f@ == closing_line(),
{
    let mut f: Vec<char> = Vec::new();
    f.push('\n');
    f.push('-');
    f.push('-');
    f.push('-');
    f.push('\n');
    assert(f@ =~= closing_line());
    f
}

/// The metadata and the body of a file whose first line is a fence and
/// that has a second line that is one; `None` for any other file. The
/// block ends at the first such line: three hyphens inside a line end
/// nothing.
pub open spec fn framed_parts(s: Seq<char>) -> Option<(Seq<char>, Seq<char>)> {
    if !occurs_at(s, fence(), 0) {
        None
    } else {
        match first_occurrence(s, closing_line(), 3) {
            Some(i) => Some(
                (s.subrange(4, i + 1), body_after(s.subrange(i + 5, s.len() as int))),
            ),
            None => None,
        }
    }
}

/// Whether a text can stand as a metadata block: it is made of whole
/// lines, and none of its lines is a fence.
pub open spec fn is_block(metadata: Seq<char>) -> bool {
    &&& metadata.len() == 0 || metadata.last() == '\n'
    &&& forall|i: int| !occurs_at(seq!['\n'] + metadata, closing_line(), i)
}

/// Inside a metadata block, and across its end, no fence line begins.
proof fn lemma_no_fence_inside(metadata: Seq<char>, body: Seq<char>, j: int)
    requires
        is_block(metadata),
        3 <= j < 3 + metadata.len(),
    ensures
        !occurs_at(framed(metadata, body), closing_line(), j),
{
    let s = framed(metadata, body);
    let t = seq!['\n'] + metadata;
    let k = j - 3;
    if occurs_at(s, closing_line(), j) {
        let w = s.subrange(j, j + 5);
        assert(w == closing_line());
        if k + 5 <= t.len() {
            assert forall|m: int| 0 <= m < 5 implies t.subrange(k, k + 5)[m] == w[m] by {
                assert(w[m] == s[j + m]);
                assert(s[j + m] == t[k + m]);
            }
            assert(t.subrange(k, k + 5) =~= w);
            assert(occurs_at(t, closing_line(), k));
        } else {
            assert(w[4] == s[j + 4]);
            assert(s[j + 4] == fence()[j + 4 - 4 - metadata.len()]);
            assert(closing_line()[4] == '\n');
        }
    }
}

/// A file made of a metadata block and a body parts into that block and
/// that body again, whatever the body holds.
pub proof fn lemma_frame_round_trip(metadata: Seq<char>, body: Seq<char>)
    requires
        is_block(metadata),
    ensures
        framed_parts(framed(metadata, body)) == Some((metadata, body)),
{
    let s = framed(metadata, body);
    let close = 3 + metadata.len() as int;
    assert(s.len() == 9 + metadata.len() + body.len());
    assert(s.subrange(0, 4) =~= fence());
    assert(s[close] == '\n') by {
        if metadata.len() > 0 {
            assert(s[close] == metadata.last());
        }
    }
    assert(s.subrange(close, close + 5) =~= closing_line());
    assert forall|j: int| 3 <= j < close implies !occurs_at(s, closing_line(), j) by {
        lemma_no_fence_inside(metadata, body, j);
    }
    lemma_first_occurrence_is(s, closing_line(), 3, close);
    assert(s.subrange(4, close + 1) =~= metadata);
    let rest = s.subrange(close + 5, s.len() as int);
    assert(rest =~= seq!['\n'] + body);
    assert(rest.drop_first() =~= body);
}

/// A file with a metadata block, taken apart.
#[derive(Debug)]
pub struct FramedFile {
    pub metadata: String,
    pub body: String,
}

/// Whether a text can stand as a metadata block.
pub fn block_fits(metadata: &str) -> (r: bool)
    ensures
        r == is_block(metadata@),
{
    let chars = chars_of(metadata);
    if chars.len() > 0 && chars[chars.len() - 1] != '\n' {
        return false;
    }
    let mut lines: Vec<char> = Vec::new();
    lines.push('\n');
    extend(&mut lines, &chars);
    assert(lines@ =~= seq!['\n'] + metadata@);
    let closing = closing_chars();
    proof {
        lemma_first_occurrence(lines@, closing@, 0);
    }
    find(&lines, &closing, 0).is_none()
}

/// Puts a metadata block and a body together into a file's text. It
/// fails where the metadata text cannot stand as a block: the file would
/// not part into the same metadata and body again.
pub fn frame_note(metadata: &str, body: &str) -> (r: Option<String>)
    ensures
        match r {
            Some(text) => is_block(metadata@) && text@ == framed(metadata@, body@) && framed_parts(
                text@,
            ) == Some((metadata@, body@)),
            None => !is_block(metadata@),
        },
{
    if !block_fits(metadata) {
        return None;
    }
    let mut out = fence_chars();
    extend(&mut out, &chars_of(metadata));
    extend(&mut out, &fence_chars());
    out.push('\n');
    extend(&mut out, &chars_of(body));
    assert(out@ =~= framed(metadata@, body@));
    proof {
        lemma_frame_round_trip(metadata@, body@);
    }
    Some(string_of(&out))
}

/// Takes a file's text apart, where it has a metadata block.
pub fn split_frontmatter(content: &str) -> (r: Option<FramedFile>)
    ensures
        match r {
            Some(f) => framed_parts(content@) == Some((f.metadata@, f.body@)),
            None => framed_parts(content@) is None,
        },
{
    let chars = chars_of(content);
    let f = fence_chars();
    if !occurs(&chars, &f, 0) {
        return None;
    }
    let closing = closing_chars();
    match find(&chars, &closing, 3) {
        Some(i) => {
            proof {
                lemma_first_occurrence(chars@, closing@, 3);
                assert(occurs_at(chars@, closing@, i as int));
            }
            assert(i + 5 <= chars.len());
            let end = i + 1;
            let metadata = slice_of(&chars, 4, end);
            let mut start = i + 5;
            if start < chars.len() && chars[start] == '\n' {
                start += 1;
            }
            let body = slice_of(&chars, start, chars.len());
            proof {
                let rest = chars@.subrange(i + 5, chars@.len() as int);
                if rest.len() > 0 && rest[0] == '\n' {
                    assert(rest.drop_first() =~= body@);
                } else {
                    assert(rest =~= body@);
                }
            }
            Some(FramedFile { metadata: string_of(&metadata), body: string_of(&body) })
        },
        None => None,
    }
}

/// What an imported file looks like.
#[derive(Debug)]
pub enum ImportShape {
    /// The file does not begin with a fence: all of it is the body.
    Plain,
    /// The file begins with a fence, and a line that is a fence closes the
    /// block.
    Framed(FramedFile),
    /// The file begins with a fence that nothing closes.
    Malformed,
}

/// The metadata and the body of an imported file that begins with a fence:
/// the block runs up to the first line after it that is a fence, and the
/// body is all that follows that line.
pub open spec fn import_parts(s: Seq<char>) -> Option<(Seq<char>, Seq<char>)> {
    match first_occurrence(s, closing_line(), 4) {
        Some(i) => Some((s.subrange(4, i), s.subrange(i + 5, s.len() as int))),
        None => None,
    }
}

/// Looks at the shape of a file that is imported.
pub fn import_shape(content: &str) -> (r: ImportShape)
    ensures
        match r {
            ImportShape::Plain => !occurs_at(content@, fence(), 0),
            ImportShape::Framed(f) => occurs_at(content@, fence(), 0) && import_parts(content@)
                == Some((f.metadata@, f.body@)),
            ImportShape::Malformed => occurs_at(content@, fence(), 0) && import_parts(content@)
                is None,
        },
{
    let chars = chars_of(content);
    let f = fence_chars();
    if !occurs(&chars, &f, 0) {
        return ImportShape::Plain;
    }
    let mut closing: Vec<char> = Vec::new();
    closing.push('\n');
    extend(&mut closing, &f);
    assert(closing@ =~= closing_line());
    assert(closing@.len() == 5);
    match find(&chars, &closing, 4) {
        Some(i) => {
            proof {
                lemma_first_occurrence(chars@, closing@, 4);
                assert(occurs_at(chars@, closing@, i as int));
            }
            assert(i + 5 <= chars.len());
            let start = i + 5;
            let metadata = slice_of(&chars, 4, i);
            let body = slice_of(&chars, start, chars.len());
            ImportShape::Framed(
                FramedFile { metadata: string_of(&metadata), body: string_of(&body) },
            )
        },
        None => ImportShape::Malformed,
    }
}

/// Where the line that begins at `from` ends: at the next newline, or at
/// the end of the text.
pub open spec fn line_end(s: Seq<char>, from: int) -> int {
    match first_occurrence(s, seq!['\n'], from) {
        Some(i) => i,
        None => s.len() as int,
    }
}

/// The first line, from `from` on, that holds more than whitespace,
/// trimmed.
pub open spec fn first_text_line(s: Seq<char>, from: int) -> Option<Seq<char>>
    decreases s.len() - from,
    when from >= 0
{
    if from >= s.len() {
        None
    } else {
        let end = line_end(s, from);
        if end < from {
            None
        } else {
            let line = trimmed(s.subrange(from, end));
            if line.len() > 0 {
                Some(line)
            } else if end >= s.len() {
                None
            } else {
                first_text_line(s, end + 1)
            }
        }
    }
}

/// The title of a plain file. A first line that begins with `#` gives the
/// title: what follows the `#` signs, trimmed. Else the first line that
/// holds more than whitespace does, trimmed. A file without such a line
/// is titled by its id, with spaces for hyphens.
pub open spec fn plain_title(content: Seq<char>, id: Seq<char>) -> Seq<char> {
    let first = content.subrange(0, line_end(content, 0));
    if content.len() > 0 && first.len() > 0 && first[0] == '#' {
        trimmed(first.skip(leading_run(first, |c: char| c == '#') as int))
    } else {
        match first_text_line(content, 0) {
            Some(line) => line,
            None => replaced(id, '-', ' '),
        }
    }
}

fn end_of_line(chars: &Vec<char>, from: usize) -> (end: usize)
    requires
        from <= chars.len(),
    ensures
        end == line_end(chars@, from as int),
        from <= end <= chars.len(),
{
    let mut newline: Vec<char> = Vec::new();
    newline.push('\n');
    assert(newline@ =~= seq!['\n']);
    proof {
        lemma_first_occurrence(chars@, newline@, from as int);
    }
    match find(chars, &newline, from) {
        Some(i) => i,
        None => chars.len(),
    }
}

/// The title of a plain file.
pub fn title_of_plain(content: &str, id: &str) -> (title: String)
    ensures
        title@ == plain_title(content@, id@),
{
    let chars = chars_of(content);
    let end = end_of_line(&chars, 0);
    let first = slice_of(&chars, 0, end);
    if chars.len() > 0 && first.len() > 0 && first[0] == '#' {
        let mut k: usize = 0;
        while k < first.len() && first[k] == '#'
            invariant
                k <= first.len(),
                forall|i: int| 0 <= i < k ==> first@[i] == '#',
            decreases first.len() - k,
        {
            k += 1;
        }
        proof {
            lemma_leading_run(first@, |c: char| c == '#', k as int);
        }
        let rest = slice_of(&first, k, first.len());
        assert(rest@ =~= first@.skip(k as int));
        return string_of(&trim(&rest));
    }
    let mut from: usize = 0;
    while from < chars.len()
        invariant
            from <= chars.len(),
            chars@ == content@,
            first@ == chars@.subrange(0, line_end(chars@, 0)),
            !(chars@.len() > 0 && first@.len() > 0 && first@[0] == '#'),
            first_text_line(chars@, 0) == first_text_line(chars@, from as int),
        decreases chars.len() - from,
    {
        let end = end_of_line(&chars, from);
        let line = trim(&slice_of(&chars, from, end));
        if line.len() > 0 {
            assert(first_text_line(chars@, from as int) == Some(line@));
            return string_of(&line);
        }
        if end == chars.len() {
            assert(first_text_line(chars@, from as int) is None);
            return string_of(&replace_char(&chars_of(id), '-', ' '));
        }
        assert(first_text_line(chars@, from as int) == first_text_line(chars@, end + 1));
        from = end + 1;
    }
    assert(first_text_line(chars@, from as int) is None);
    string_of(&replace_char(&chars_of(id), '-', ' '))
}

} // verus!
