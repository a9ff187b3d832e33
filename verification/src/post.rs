use vstd::prelude::*;

use crate::errors::PipelineError;
use crate::text::{
    dec_of_u8, digit_val, digit_val_exec, is_digit, is_digit_exec, trim_spec, u8_to_string,
};
use crate::util::{
    decoded_entry, markdown_html_of, parse_front_matter_and_content, render_markdown, split3_spec,
    view_opt_string,
};

verus! {

// Filename-derived identity: a post's source filename has the shape
// `YYYY-MM-DD-SSS-slug`, and its date, sequence number and slug come from
// the filename alone, never from the file's content.

/// The stem matches `YYYY-MM-DD-SSS-slug`: three dash-separated digit
/// groups of widths 4, 2 and 2, a three-digit group, and a non-empty slug.
pub open spec fn filename_matches(f: Seq<char>) -> bool {
    &&& f.len() >= 16
    &&& (forall|k: int| 0 <= k < 4 ==> is_digit(f[k]))
    &&& f[4] == '-'
    &&& is_digit(f[5])
    &&& is_digit(f[6])
    &&& f[7] == '-'
    &&& is_digit(f[8])
    &&& is_digit(f[9])
    &&& f[10] == '-'
    &&& is_digit(f[11])
    &&& is_digit(f[12])
    &&& is_digit(f[13])
    &&& f[14] == '-'
}

/// The `YYYY-MM-DD` date part of a matching stem.
pub open spec fn date_of(f: Seq<char>) -> Seq<char> {
    f.subrange(0, 10)
}

/// The numeric value of the three-digit sequence group of a matching stem.
pub open spec fn seq_value(f: Seq<char>) -> int {
    100 * digit_val(f[11]) + 10 * digit_val(f[12]) + digit_val(f[13])
}

/// The slug part of a matching stem.
pub open spec fn slug_of(f: Seq<char>) -> Seq<char> {
    f.subrange(15, f.len() as int)
}

/// A stem from which an identity can be built: it matches the shape and
/// its sequence group fits the 0 through 255 range.
pub open spec fn filename_ok(f: Seq<char>) -> bool {
    filename_matches(f) && seq_value(f) <= 255
}

/// Extract `(date, slug, sequence)` from a filename stem; fails closed with
/// `InvalidFilename` on any stem whose shape does not match or whose
/// sequence group exceeds 255.
fn extract_data_from_filename(filename: &str) -> (r: Result<(String, String, u8), PipelineError>)
    ensures
        r is Ok <==> filename_ok(filename@),
        r matches Ok(t) ==> t.0@ == date_of(filename@) && t.1@ == slug_of(filename@) && t.2
            == seq_value(filename@),
        r matches Err(e) ==> e == PipelineError::InvalidFilename,
{
    let f = filename;
    let hl = f.unicode_len();
    if hl < 16 {
        return Err(PipelineError::InvalidFilename);
    }
    let shape_ok = is_digit_exec(f.get_char(0)) && is_digit_exec(f.get_char(1)) && is_digit_exec(
        f.get_char(2),
    ) && is_digit_exec(f.get_char(3)) && f.get_char(4) == '-' && is_digit_exec(f.get_char(5))
        && is_digit_exec(f.get_char(6)) && f.get_char(7) == '-' && is_digit_exec(f.get_char(8))
        && is_digit_exec(f.get_char(9)) && f.get_char(10) == '-' && is_digit_exec(f.get_char(11))
        && is_digit_exec(f.get_char(12)) && is_digit_exec(f.get_char(13)) && f.get_char(14) == '-';
    if !shape_ok {
        return Err(PipelineError::InvalidFilename);
    }
    let v: u32 = 100 * digit_val_exec(f.get_char(11)) + 10 * digit_val_exec(f.get_char(12))
        + digit_val_exec(f.get_char(13));
    if v > 255 {
        return Err(PipelineError::InvalidFilename);
    }
    let date = String::from_str(f.substring_char(0, 10));
    let slug = String::from_str(f.substring_char(15, hl));
    Ok((date, slug, v as u8))
}

// The final path component without its extension, as the filename stem of
// a source path. A path that ends in a separator yields an empty stem.

/// The part of `p` after its last `/`, or all of `p` without one.
pub open spec fn after_last_slash(p: Seq<char>) -> Seq<char>
    decreases p.len(),
{
    if p.len() == 0 {
        p
    } else if p[p.len() - 1] == '/' {
        Seq::<char>::empty()
    } else {
        after_last_slash(p.drop_last()).push(p[p.len() - 1])
    }
}

/// The index of the last `.` in `c`, if any.
pub open spec fn last_dot(c: Seq<char>) -> Option<int>
    decreases c.len(),
{
    if c.len() == 0 {
        Option::None
    } else if c[c.len() - 1] == '.' {
        Option::Some(c.len() - 1)
    } else {
        last_dot(c.drop_last())
    }
}

/// `c` without its extension: everything before the last `.`, unless that
/// dot leads the name or there is none.
pub open spec fn strip_extension(c: Seq<char>) -> Seq<char> {
    match last_dot(c) {
        Option::None => c,
        Option::Some(i) => if i == 0 {
            c
        } else {
            c.subrange(0, i)
        },
    }
}

/// The filename stem of a source path.
pub open spec fn stem_of(p: Seq<char>) -> Seq<char> {
    strip_extension(after_last_slash(p))
}

proof fn lemma_after_last_slash(p: Seq<char>, s: int)
    requires
        0 <= s <= p.len(),
        forall|t: int| s <= t < p.len() ==> p[t] != '/',
        s > 0 ==> p[s - 1] == '/',
    ensures
        after_last_slash(p) == p.subrange(s, p.len() as int),
    decreases p.len(),
{
    if p.len() == 0 {
        assert(p.subrange(0, 0) =~= p);
    } else if p[p.len() - 1] == '/' {
        assert(s == p.len());
        assert(p.subrange(s, p.len() as int) =~= Seq::<char>::empty());
    } else {
        let q = p.drop_last();
        assert(s < p.len());
        lemma_after_last_slash(q, s);
        assert(q.subrange(s, q.len() as int).push(p[p.len() - 1]) =~= p.subrange(
            s,
            p.len() as int,
        ));
    }
}

proof fn lemma_last_dot_some(c: Seq<char>, j: int)
    requires
        0 <= j < c.len(),
        c[j] == '.',
        forall|t: int| j < t < c.len() ==> c[t] != '.',
    ensures
        last_dot(c) == Some(j),
    decreases c.len(),
{
    if c[c.len() - 1] == '.' {
        assert(j == c.len() - 1);
    } else {
        lemma_last_dot_some(c.drop_last(), j);
    }
}

proof fn lemma_last_dot_none(c: Seq<char>)
    requires
        forall|t: int| 0 <= t < c.len() ==> c[t] != '.',
    ensures
        last_dot(c) is None,
    decreases c.len(),
{
    if c.len() > 0 {
        lemma_last_dot_none(c.drop_last());
    }
}

/// The filename stem of a source path, by scanning for the last separator
/// and the last dot.
fn file_stem_of_path(path: &str) -> (r: String)
    ensures
        r@ == stem_of(path@),
{
    let hl = path.unicode_len();
    let mut start: usize = 0;
    let mut i: usize = 0;
    while i < hl
        invariant
            0 <= start <= i <= hl,
            hl == path@.len(),
            forall|t: int| start <= t < i ==> path@[t] != '/',
            start > 0 ==> path@[start - 1] == '/',
        decreases hl - i,
    {
        if path.get_char(i) == '/' {
            start = i + 1;
        }
        i = i + 1;
    }
    proof {
        lemma_after_last_slash(path@, start as int);
    }
    let mut dot: usize = 0;
    let mut has_dot = false;
    let mut j: usize = start;
    while j < hl
        invariant
            start <= j <= hl,
            hl == path@.len(),
            !has_dot ==> forall|t: int| start <= t < j ==> path@[t] != '.',
            has_dot ==> start <= dot < j && path@[dot as int] == '.' && forall|t: int|
                dot < t < j ==> path@[t] != '.',
        decreases hl - j,
    {
        if path.get_char(j) == '.' {
            dot = j;
            has_dot = true;
        }
        j = j + 1;
    }
    let comp_end: usize = if has_dot && dot > start {
        dot
    } else {
        hl
    };
    proof {
        let comp = path@.subrange(start as int, hl as int);
        if has_dot {
            lemma_last_dot_some(comp, dot - start);
            if dot > start {
                assert(comp.subrange(0, dot - start) =~= path@.subrange(
                    start as int,
                    dot as int,
                ));
            } else {
                assert(comp.subrange(start - start, hl - start) =~= comp);
            }
        } else {
            lemma_last_dot_none(comp);
        }
        assert(path@.subrange(start as int, comp_end as int) == stem_of(path@));
    }
    String::from_str(path.substring_char(start, comp_end))
}

/// One fully assembled content unit: filename-derived identity, decoded
/// metadata, and the rendered body.
#[derive(Debug)]
pub struct Post {
    pub title: String,
    pub slug: String,
    pub content: String,
    pub date: String,
    pub seq: u8,
    pub relative_url: String,
}

impl Post {
    /// Build a post from its source path and the raw content of that file.
    /// The date, sequence and slug come from the filename stem alone; the
    /// title comes from the decoded metadata and defaults to the slug; the
    /// content is the rendered body; the relative URL is `p/` plus the
    /// slug.
    pub fn new(src_path: &str, raw: &str) -> (r: Result<Post, PipelineError>)
        ensures
            r is Ok <==> filename_ok(stem_of(src_path@)) && split3_spec(raw@) is Some,
            r matches Ok(p) ==> ({
                let f = stem_of(src_path@);
                let parts = split3_spec(raw@)->Some_0;
                let meta = trim_spec(parts.1);
                &&& p.date@ == date_of(f)
                &&& p.seq == seq_value(f)
                &&& p.slug@ == slug_of(f)
                &&& p.relative_url@ == seq!['p', '/'] + slug_of(f)
                &&& p.content@ == markdown_html_of(parts.2)
                &&& p.title@ == (match decoded_entry(meta, "title"@) {
                    Option::Some(t) => t,
                    Option::None => slug_of(f),
                })
            }),
            r matches Err(e) ==> ((e == PipelineError::InvalidFilename) <==> !filename_ok(
                stem_of(src_path@),
            )) && ((e == PipelineError::MalformedDocument) <==> (filename_ok(stem_of(src_path@))
                && split3_spec(raw@) is None)),
    {
        let stem = file_stem_of_path(src_path);
        let (date, slug, seqn) = match extract_data_from_filename(stem.as_str()) {
            Ok(t) => t,
            Err(e) => {
                return Err(e);
            },
        };
        let (fm, body) = match parse_front_matter_and_content(raw) {
            Ok(p) => p,
            Err(e) => {
                return Err(e);
            },
        };
        let title = match fm.title {
            Some(t) => t,
            None => slug.clone(),
        };
        let content = render_markdown(body.as_str());
        proof {
            reveal_strlit("p/");
            assert("p/"@ =~= seq!['p', '/']);
        }
        let relative_url = String::from_str("p/").concat(slug.as_str());
        Ok(Post { title, slug, content, date, seq: seqn, relative_url })
    }

    /// The canonical filename of the post: date, sequence and slug, dash
    /// separated, the sequence without leading zeros.
    pub fn fname(&self) -> (r: String)
        ensures
            r@ == self.date@ + seq!['-'] + dec_of_u8(self.seq as int) + seq!['-'] + self.slug@,
    {
        proof {
            reveal_strlit("-");
            assert("-"@ =~= seq!['-']);
        }
        let mut out = self.date.clone();
        out.append("-");
        let seq_str = u8_to_string(self.seq);
        out.append(seq_str.as_str());
        out.append("-");
        out.append(self.slug.as_str());
        out
    }

    /// The relative URL the post is published under.
    pub fn relative_url(&self) -> (r: String)
        ensures
            r@ == self.relative_url@,
    {
        self.relative_url.clone()
    }
}

} // verus!
