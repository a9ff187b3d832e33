use vstd::prelude::*;

use crate::errors::PipelineError;
use crate::text::{
    contains_seq, find_from, find_from_exec, lemma_find_from_first, lemma_find_from_none,
    lemma_find_from_some, occurs_at, str_eq, trim_exec, trim_spec,
};

verus! {

// The front-matter splitter: a file is a preamble, a metadata block and a
// body, separated by exactly two `---` delimiter lines.

/// The delimiter line that separates the metadata block from its
/// surroundings.
pub open spec fn fm_delim() -> Seq<char> {
    seq!['-', '-', '-', '\n']
}

/// The three parts of a raw file, where the raw text contains exactly two
/// delimiter lines: the preamble, the metadata block, and the body.
/// `None` where the delimiter count is not two.
pub open spec fn split3_spec(raw: Seq<char>) -> Option<(Seq<char>, Seq<char>, Seq<char>)> {
    match find_from(raw, fm_delim(), 0) {
        Option::None => Option::None,
        Option::Some(i1) => match find_from(raw, fm_delim(), i1 + 4) {
            Option::None => Option::None,
            Option::Some(i2) => {
                if find_from(raw, fm_delim(), i2 + 4) is Some {
                    Option::None
                } else {
                    Option::Some(
                        (
                            raw.subrange(0, i1),
                            raw.subrange(i1 + 4, i2),
                            raw.subrange(i2 + 4, raw.len() as int),
                        ),
                    )
                }
            },
        },
    }
}

/// No delimiter occurrence can start inside `x` or straddle the delimiter
/// that follows `x`: an occurrence inside `x` is ruled out by assumption,
/// and a straddling one would need a newline where the delimiter holds a
/// dash.
proof fn lemma_no_occurrence_over_part(raw: Seq<char>, start: int, x: Seq<char>)
    requires
        0 <= start,
        start + x.len() + 4 <= raw.len(),
        raw.subrange(start, start + x.len()) == x,
        raw.subrange(start + x.len(), start + x.len() + 4) == fm_delim(),
        !contains_seq(x, fm_delim()),
    ensures
        forall|k: int| start <= k < start + x.len() ==> !occurs_at(raw, fm_delim(), k),
{
    assert forall|k: int| start <= k < start + x.len() implies !occurs_at(
        raw,
        fm_delim(),
        k,
    ) by {
        if occurs_at(raw, fm_delim(), k) {
            assert(raw.subrange(k, k + 4)[3] == '\n');
            assert(raw[k + 3] == '\n');
            if k + 4 <= start + x.len() {
                assert(x.subrange(k - start, k - start + 4) =~= raw.subrange(k, k + 4));
                assert(occurs_at(x, fm_delim(), k - start));
                assert(contains_seq(x, fm_delim()));
            } else {
                let off = k + 3 - (start + x.len());
                assert(0 <= off < 3);
                assert(raw.subrange(start + x.len(), start + x.len() + 4)[off] == raw[k + 3]);
                assert(fm_delim()[off] == '-');
            }
        }
    }
}

/// The parts of a successful split, with the delimiters reinserted,
/// reconstruct the raw text, and no part contains a delimiter of its own.
pub proof fn lemma_split_reconstructs(raw: Seq<char>)
    requires
        split3_spec(raw) is Some,
    ensures
        ({
            let (a, b, c) = split3_spec(raw)->Some_0;
            &&& raw =~= a + fm_delim() + b + fm_delim() + c
            &&& !contains_seq(a, fm_delim())
            &&& !contains_seq(b, fm_delim())
            &&& !contains_seq(c, fm_delim())
        }),
{
    let d = fm_delim();
    let i1 = find_from(raw, d, 0)->Some_0;
    lemma_find_from_some(raw, d, 0, i1);
    let i2 = find_from(raw, d, i1 + 4)->Some_0;
    lemma_find_from_some(raw, d, i1 + 4, i2);
    lemma_find_from_none(raw, d, i2 + 4);
    let (a, b, c) = split3_spec(raw)->Some_0;
    assert(raw =~= a + d + b + d + c);
    assert forall|k: int| !occurs_at(a, d, k) by {
        if occurs_at(a, d, k) {
            assert(raw.subrange(k, k + 4) =~= a.subrange(k, k + 4));
            assert(occurs_at(raw, d, k));
        }
    }
    assert forall|k: int| !occurs_at(b, d, k) by {
        if occurs_at(b, d, k) {
            assert(raw.subrange(i1 + 4 + k, i1 + 4 + k + 4) =~= b.subrange(k, k + 4));
            assert(occurs_at(raw, d, i1 + 4 + k));
        }
    }
    assert forall|k: int| !occurs_at(c, d, k) by {
        if occurs_at(c, d, k) {
            assert(raw.subrange(i2 + 4 + k, i2 + 4 + k + 4) =~= c.subrange(k, k + 4));
            assert(occurs_at(raw, d, i2 + 4 + k));
        }
    }
}

/// Completeness of the split: any text assembled from three delimiter-free
/// parts with two delimiter lines splits back into exactly those parts.
/// In particular, splitting fails exactly on the texts with a delimiter
/// count other than two.
pub proof fn lemma_split_complete(raw: Seq<char>, a: Seq<char>, b: Seq<char>, c: Seq<char>)
    requires
        raw == a + fm_delim() + b + fm_delim() + c,
        !contains_seq(a, fm_delim()),
        !contains_seq(b, fm_delim()),
        !contains_seq(c, fm_delim()),
    ensures
        split3_spec(raw) == Some((a, b, c)),
{
    let d = fm_delim();
    let i1 = a.len() as int;
    let i2: int = a.len() as int + 4 + b.len() as int;
    assert(raw.subrange(0, i1) =~= a);
    assert(raw.subrange(i1, i1 + 4) =~= d);
    assert(raw.subrange(i1 + 4, i2) =~= b);
    assert(raw.subrange(i2, i2 + 4) =~= d);
    assert(raw.subrange(i2 + 4, raw.len() as int) =~= c);
    lemma_no_occurrence_over_part(raw, 0, a);
    assert(occurs_at(raw, d, i1));
    lemma_find_from_first(raw, d, 0, i1);
    lemma_no_occurrence_over_part(raw, i1 + 4, b);
    assert(occurs_at(raw, d, i2));
    lemma_find_from_first(raw, d, i1 + 4, i2);
    assert forall|k: int| i2 + 4 <= k implies !occurs_at(raw, d, k) by {
        if occurs_at(raw, d, k) {
            assert(c.subrange(k - (i2 + 4), k - (i2 + 4) + 4) =~= raw.subrange(k, k + 4));
            assert(occurs_at(c, d, k - (i2 + 4)));
        }
    }
    if find_from(raw, d, i2 + 4) is Some {
        let j = find_from(raw, d, i2 + 4)->Some_0;
        lemma_find_from_some(raw, d, i2 + 4, j);
    }
}

/// The number of delimiter lines in `raw`: non-overlapping occurrences,
/// counted left to right.
pub open spec fn delim_count_from(raw: Seq<char>, i: int) -> nat
    decreases raw.len() - i,
    via delim_count_from_decreases
{
    match find_from(raw, fm_delim(), i) {
        Option::None => 0,
        Option::Some(j) => 1 + delim_count_from(raw, j + 4),
    }
}

#[via_fn]
proof fn delim_count_from_decreases(raw: Seq<char>, i: int) {
    if find_from(raw, fm_delim(), i) is Some {
        let j = find_from(raw, fm_delim(), i)->Some_0;
        lemma_find_from_some(raw, fm_delim(), i, j);
    }
}

/// Splitting succeeds exactly where the delimiter count is two.
pub proof fn lemma_split_iff_two_delims(raw: Seq<char>)
    ensures
        split3_spec(raw) is Some <==> delim_count_from(raw, 0) == 2,
{
    match find_from(raw, fm_delim(), 0) {
        Option::None => {
            assert(delim_count_from(raw, 0) == 0);
        },
        Option::Some(i1) => {
            assert(delim_count_from(raw, 0) == 1 + delim_count_from(raw, i1 + 4));
            match find_from(raw, fm_delim(), i1 + 4) {
                Option::None => {
                    assert(delim_count_from(raw, i1 + 4) == 0);
                },
                Option::Some(i2) => {
                    assert(delim_count_from(raw, i1 + 4) == 1 + delim_count_from(raw, i2 + 4));
                    match find_from(raw, fm_delim(), i2 + 4) {
                        Option::None => {
                            assert(delim_count_from(raw, i2 + 4) == 0);
                        },
                        Option::Some(i3) => {
                            assert(delim_count_from(raw, i2 + 4) == 1 + delim_count_from(
                                raw,
                                i3 + 4,
                            ));
                        },
                    }
                },
            }
        },
    }
}

/// Split raw file content on the two `---` delimiter lines, yielding the
/// metadata block trimmed of surrounding whitespace and the body. The
/// preamble before the first delimiter is dropped. Fails exactly where the
/// delimiter count is not two.
pub fn split_front_matter(raw: &str) -> (r: Result<(String, String), PipelineError>)
    ensures
        r is Ok <==> split3_spec(raw@) is Some,
        r matches Ok(p) ==> split3_spec(raw@) matches Some(q) && p.0@ == trim_spec(q.1) && p.1@
            == q.2,
        r matches Err(e) ==> e == PipelineError::MalformedDocument,
{
    let delim = "---\n";
    proof {
        reveal_strlit("---\n");
        assert(delim@ =~= fm_delim());
    }
    let hl = raw.unicode_len();
    let i1 = match find_from_exec(raw, delim, 0) {
        Some(i) => i,
        None => {
            return Err(PipelineError::MalformedDocument);
        },
    };
    proof {
        lemma_find_from_some(raw@, fm_delim(), 0, i1 as int);
    }
    let i2 = match find_from_exec(raw, delim, i1 + 4) {
        Some(i) => i,
        None => {
            return Err(PipelineError::MalformedDocument);
        },
    };
    proof {
        lemma_find_from_some(raw@, fm_delim(), i1 + 4, i2 as int);
    }
    match find_from_exec(raw, delim, i2 + 4) {
        Some(_) => {
            return Err(PipelineError::MalformedDocument);
        },
        None => {},
    }
    let meta_raw = raw.substring_char(i1 + 4, i2);
    let meta = trim_exec(meta_raw);
    let body = raw.substring_char(i2 + 4, hl);
    Ok((meta, String::from_str(body)))
}

// The metadata decoder: the trimmed metadata block is read as a YAML
// mapping, of which only the scalar string values of the keys `layout` and
// `title` are kept. A block that fails to parse, or holds no such entries,
// decodes to an empty record.

/// The scalar string value at a top-level key of a YAML document, or `None`
/// where the text does not parse as YAML, has no first document, or the key
/// is absent or not a scalar string.
pub uninterp spec fn yaml_string_entry(src: Seq<char>, key: Seq<char>) -> Option<Seq<char>>;

/// The characters of an optional string.
pub open spec fn view_opt_string(o: Option<String>) -> Option<Seq<char>> {
    match o {
        Option::Some(s) => Option::Some(s@),
        Option::None => Option::None,
    }
}

/// What decoding a trimmed metadata block yields for one recognized key:
/// nothing for an empty block, else the YAML scalar string entry.
pub open spec fn decoded_entry(meta: Seq<char>, key: Seq<char>) -> Option<Seq<char>> {
    if meta.len() == 0 {
        Option::None
    } else {
        yaml_string_entry(meta, key)
    }
}

/// Relies on `yaml_rust::YamlLoader::load_from_str`, `yaml_rust::Yaml`'s
/// `Index<&str>` impl and `yaml_rust::Yaml::as_str`: parsing is
/// deterministic in the text alone, indexing a non-mapping or a missing key
/// yields `BadValue`, and `as_str` is `Some` exactly on scalar strings. The
/// calls are inseparable here because a `Yaml` value cannot be spoken of in
/// a contract; the result is a function of the text and the key.
#[verifier::external_body]
fn yaml_scalar_entry(src: &str, key: &str) -> (r: Option<String>)
    ensures
        view_opt_string(r) == yaml_string_entry(src@, key@),
{
    match yaml_rust::YamlLoader::load_from_str(src) {
        Ok(docs) => match docs.into_iter().next() {
            Some(doc) => doc[key].as_str().map(|s| s.to_owned()),
            None => None,
        },
        Err(_) => None,
    }
}

/// The decoded metadata of one content file: at most the recognized keys
/// `layout` and `title`, each a scalar string; unrecognized keys are
/// dropped.
pub struct FrontMatterBlock {
    pub layout: Option<String>,
    pub title: Option<String>,
}

impl FrontMatterBlock {
    /// The value at a recognized key; `None` for any other key.
    pub fn get(&self, key: &str) -> (r: Option<&String>)
        ensures
            key@ == "layout"@ ==> view_opt_string_ref(r) == view_opt_string(self.layout),
            key@ == "title"@ ==> view_opt_string_ref(r) == view_opt_string(self.title),
            key@ != "layout"@ && key@ != "title"@ ==> r is None,
    {
        proof {
            reveal_strlit("layout");
            reveal_strlit("title");
            assert("layout"@.len() != "title"@.len());
        }
        if str_eq(key, "layout") {
            match &self.layout {
                Some(v) => Some(v),
                None => None,
            }
        } else if str_eq(key, "title") {
            match &self.title {
                Some(v) => Some(v),
                None => None,
            }
        } else {
            None
        }
    }
}

/// The characters of an optional borrowed string.
pub open spec fn view_opt_string_ref(o: Option<&String>) -> Option<Seq<char>> {
    match o {
        Option::Some(s) => Option::Some(s@),
        Option::None => Option::None,
    }
}

/// Decode a trimmed metadata block into the recognized keys. Never fails:
/// an empty or unparsable block decodes to the empty record.
pub fn decode_front_matter(meta: &str) -> (fm: FrontMatterBlock)
    ensures
        view_opt_string(fm.layout) == decoded_entry(meta@, "layout"@),
        view_opt_string(fm.title) == decoded_entry(meta@, "title"@),
{
    if meta.unicode_len() == 0 {
        FrontMatterBlock { layout: None, title: None }
    } else {
        let layout = yaml_scalar_entry(meta, "layout");
        let title = yaml_scalar_entry(meta, "title");
        FrontMatterBlock { layout, title }
    }
}

/// Split raw file content on the front-matter delimiters and decode the
/// metadata block. Fails exactly where the delimiter count is not two; an
/// undecodable metadata block degrades to an empty record instead.
pub fn parse_front_matter_and_content(raw: &str) -> (r: Result<
    (FrontMatterBlock, String),
    PipelineError,
>)
    ensures
        r is Ok <==> split3_spec(raw@) is Some,
        r matches Ok(p) ==> split3_spec(raw@) matches Some(q) && view_opt_string(p.0.layout)
            == decoded_entry(trim_spec(q.1), "layout"@) && view_opt_string(p.0.title)
            == decoded_entry(trim_spec(q.1), "title"@) && p.1@ == q.2,
        r matches Err(e) ==> e == PipelineError::MalformedDocument,
{
    let (meta, body) = match split_front_matter(raw) {
        Ok(p) => p,
        Err(e) => {
            return Err(e);
        },
    };
    let fm = decode_front_matter(meta.as_str());
    Ok((fm, body))
}

// The markup renderer: a pure conversion from markup text to HTML, done by
// an outside Markdown library.

/// The HTML rendering of a Markdown text; a function of the text alone.
pub uninterp spec fn markdown_html_of(src: Seq<char>) -> Seq<char>;

/// Relies on `pulldown_cmark::Parser::new` and
/// `pulldown_cmark::html::push_html`: the rendered HTML is a deterministic
/// function of the markup text alone. The two calls are inseparable because
/// `push_html` consumes the parser.
#[verifier::external_body]
pub fn render_markdown(template: &str) -> (r: String)
    ensures
        r@ == markdown_html_of(template@),
{
    let mut output = String::new();
    let p = pulldown_cmark::Parser::new(template);
    pulldown_cmark::html::push_html(&mut output, p);
    output
}

} // verus!
