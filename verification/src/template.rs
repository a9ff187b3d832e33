use vstd::prelude::*;

use crate::text::{
    find_from, find_from_exec, lemma_find_from_first, lemma_find_from_none, lemma_find_from_some,
    occurs_at, occurs_at_exec, str_eq, trim_exec, trim_spec,
};

verus! {

// The template renderer: `{{ name }}` placeholders in a template are
// resolved against a transient mapping of names to string values.

/// A transient mapping from variable name to string value, built fresh for
/// one render call. A later entry for the same name shadows an earlier one.
pub struct TemplateContext {
    pairs: Vec<(String, String)>,
}

/// The mapping a sequence of entries denotes: later entries win.
pub open spec fn ctx_map_of(pairs: Seq<(String, String)>) -> Map<Seq<char>, Seq<char>>
    decreases pairs.len(),
{
    if pairs.len() == 0 {
        Map::empty()
    } else {
        ctx_map_of(pairs.drop_last()).insert(pairs.last().0@, pairs.last().1@)
    }
}

impl View for TemplateContext {
    type V = Map<Seq<char>, Seq<char>>;

    closed spec fn view(&self) -> Map<Seq<char>, Seq<char>> {
        ctx_map_of(self.pairs@)
    }
}

proof fn lemma_ctx_map_at(pairs: Seq<(String, String)>, j: int)
    requires
        0 <= j < pairs.len(),
        forall|t: int| j < t < pairs.len() ==> pairs[t].0@ != pairs[j].0@,
    ensures
        ctx_map_of(pairs).contains_key(pairs[j].0@),
        ctx_map_of(pairs)[pairs[j].0@] == pairs[j].1@,
    decreases pairs.len(),
{
    if j == pairs.len() - 1 {
    } else {
        lemma_ctx_map_at(pairs.drop_last(), j);
    }
}

proof fn lemma_ctx_map_absent(pairs: Seq<(String, String)>, k: Seq<char>)
    requires
        forall|t: int| 0 <= t < pairs.len() ==> pairs[t].0@ != k,
    ensures
        !ctx_map_of(pairs).contains_key(k),
    decreases pairs.len(),
{
    if pairs.len() > 0 {
        lemma_ctx_map_absent(pairs.drop_last(), k);
    }
}

impl TemplateContext {
    /// An empty context.
    pub fn new() -> (r: TemplateContext)
        ensures
            r@ == Map::<Seq<char>, Seq<char>>::empty(),
    {
        TemplateContext { pairs: Vec::new() }
    }

    /// Bind a name to a string value, shadowing any earlier binding.
    pub fn set_val(&mut self, key: &str, val: &str)
        ensures
            final(self)@ == old(self)@.insert(key@, val@),
    {
        self.pairs.push((String::from_str(key), String::from_str(val)));
        proof {
            assert(self.pairs@.drop_last() =~= old(self).pairs@);
        }
    }

    /// The value bound to a name, if any.
    pub fn get(&self, name: &str) -> (r: Option<&String>)
        ensures
            match r {
                Some(v) => self@.contains_key(name@) && v@ == self@[name@],
                None => !self@.contains_key(name@),
            },
    {
        let n = self.pairs.len();
        let mut i: usize = n;
        while i > 0
            invariant
                0 <= i <= n,
                n == self.pairs@.len(),
                forall|t: int| i <= t < n ==> self.pairs@[t].0@ != name@,
            decreases i,
        {
            let pair = &self.pairs[i - 1];
            if str_eq(pair.0.as_str(), name) {
                proof {
                    lemma_ctx_map_at(self.pairs@, i - 1);
                }
                return Some(&pair.1);
            }
            i = i - 1;
        }
        proof {
            lemma_ctx_map_absent(self.pairs@, name@);
        }
        None
    }
}

/// What a placeholder name that is absent from the context renders to:
/// the empty string, a hard failure of the whole render, or the
/// placeholder text kept as it stands.
#[derive(Clone, Copy, Debug, PartialEq, Eq, Structural)]
pub enum MissingKeyPolicy {
    EmptyString,
    Fail,
    Literal,
}

/// The two characters that open a placeholder.
pub open spec fn open_marker() -> Seq<char> {
    seq!['{', '{']
}

/// The two characters that close a placeholder.
pub open spec fn close_marker() -> Seq<char> {
    seq!['}', '}']
}

/// Every placeholder opening in `t` is closed later.
pub open spec fn wf_template(t: Seq<char>) -> bool {
    forall|i: int| occurs_at(t, open_marker(), i) ==> find_from(t, close_marker(), i + 2) is Some
}

/// The rendering of `t` from position `i` on: literal text is kept, and
/// each `{{ name }}` placeholder is replaced by the value bound to its
/// trimmed name, or handled by the policy where the name is unbound. A
/// placeholder under the `Fail` policy contributes nothing here; whether
/// the render as a whole fails is `resolves_from`.
pub open spec fn render_from(
    t: Seq<char>,
    i: int,
    ctx: Map<Seq<char>, Seq<char>>,
    policy: MissingKeyPolicy,
) -> Seq<char>
    decreases t.len() - i,
    via render_from_decreases
{
    if i < 0 || i >= t.len() {
        Seq::<char>::empty()
    } else if occurs_at(t, open_marker(), i) {
        match find_from(t, close_marker(), i + 2) {
            Option::None => t.subrange(i, t.len() as int),
            Option::Some(j) => {
                let name = trim_spec(t.subrange(i + 2, j));
                let rest = render_from(t, j + 2, ctx, policy);
                if ctx.contains_key(name) {
                    ctx[name] + rest
                } else if policy is Literal {
                    t.subrange(i, j + 2) + rest
                } else {
                    rest
                }
            },
        }
    } else {
        seq![t[i]] + render_from(t, i + 1, ctx, policy)
    }
}

#[via_fn]
proof fn render_from_decreases(
    t: Seq<char>,
    i: int,
    ctx: Map<Seq<char>, Seq<char>>,
    policy: MissingKeyPolicy,
) {
    if 0 <= i < t.len() && occurs_at(t, open_marker(), i) {
        if find_from(t, close_marker(), i + 2) is Some {
            let j = find_from(t, close_marker(), i + 2)->Some_0;
            lemma_find_from_some(t, close_marker(), i + 2, j);
        }
    }
}

/// Every placeholder name in `t` from position `i` on is bound in the
/// context.
pub open spec fn resolves_from(t: Seq<char>, i: int, ctx: Map<Seq<char>, Seq<char>>) -> bool
    decreases t.len() - i,
    via resolves_from_decreases
{
    if i < 0 || i >= t.len() {
        true
    } else if occurs_at(t, open_marker(), i) {
        match find_from(t, close_marker(), i + 2) {
            Option::None => true,
            Option::Some(j) => ctx.contains_key(trim_spec(t.subrange(i + 2, j)))
                && resolves_from(t, j + 2, ctx),
        }
    } else {
        resolves_from(t, i + 1, ctx)
    }
}

#[via_fn]
proof fn resolves_from_decreases(t: Seq<char>, i: int, ctx: Map<Seq<char>, Seq<char>>) {
    if 0 <= i < t.len() && occurs_at(t, open_marker(), i) {
        if find_from(t, close_marker(), i + 2) is Some {
            let j = find_from(t, close_marker(), i + 2)->Some_0;
            lemma_find_from_some(t, close_marker(), i + 2, j);
        }
    }
}

/// Whether every placeholder opening in a template is closed, so that the
/// renderer's precondition can be tested at run time.
pub fn template_is_well_formed(template: &str) -> (b: bool)
    ensures
        b == wf_template(template@),
{
    let hl = template.unicode_len();
    let mut i: usize = 0;
    while i < hl
        invariant
            0 <= i <= hl,
            hl == template@.len(),
            forall|k: int|
                0 <= k < i && occurs_at(template@, open_marker(), k) ==> find_from(
                    template@,
                    close_marker(),
                    k + 2,
                ) is Some,
        decreases hl - i,
    {
        proof {
            reveal_strlit("{{");
            reveal_strlit("}}");
            assert("{{"@ =~= open_marker());
            assert("}}"@ =~= close_marker());
        }
        if i + 1 < hl && occurs_at_exec(template, "{{", i) {
            if find_from_exec(template, "}}", i + 2).is_none() {
                return false;
            }
        }
        i = i + 1;
    }
    proof {
        assert forall|k: int| occurs_at(template@, open_marker(), k) implies find_from(
            template@,
            close_marker(),
            k + 2,
        ) is Some by {
            assert(0 <= k && k + 2 <= hl);
        }
    }
    true
}

/// Render a template against a context under a missing-name policy.
/// Returns `None` exactly where the policy is `Fail` and some placeholder
/// name is unbound; under the other policies it always succeeds.
pub fn render_template(template: &str, context: &TemplateContext, policy: MissingKeyPolicy) -> (r:
    Option<String>)
    requires
        wf_template(template@),
    ensures
        !(policy is Fail) ==> r is Some,
        policy is Fail ==> (r is Some <==> resolves_from(template@, 0, context@)),
        r matches Some(s) ==> s@ == render_from(template@, 0, context@, policy),
{
    let hl = template.unicode_len();
    let mut out = String::new();
    let mut i: usize = 0;
    while i < hl
        invariant
            0 <= i <= hl,
            hl == template@.len(),
            wf_template(template@),
            render_from(template@, 0, context@, policy) == out@ + render_from(
                template@,
                i as int,
                context@,
                policy,
            ),
            policy is Fail ==> resolves_from(template@, 0, context@) == resolves_from(
                template@,
                i as int,
                context@,
            ),
        decreases hl - i,
    {
        proof {
            reveal_strlit("{{");
            reveal_strlit("}}");
            assert("{{"@ =~= open_marker());
            assert("}}"@ =~= close_marker());
        }
        let ghost out_prev = out@;
        let is_open = i + 1 < hl && occurs_at_exec(template, "{{", i);
        if is_open {
            let j = match find_from_exec(template, "}}", i + 2) {
                Some(j) => j,
                None => {
                    proof {
                        assert(false);
                    }
                    return None;
                },
            };
            proof {
                lemma_find_from_some(template@, close_marker(), i + 2, j as int);
            }
            let name_raw = template.substring_char(i + 2, j);
            let name = trim_exec(name_raw);
            let ghost contribution: Seq<char>;
            match context.get(name.as_str()) {
                Some(v) => {
                    out.append(v.as_str());
                    proof {
                        contribution = v@;
                    }
                },
                None => {
                    match policy {
                        MissingKeyPolicy::EmptyString => {
                            proof {
                                contribution = Seq::<char>::empty();
                            }
                        },
                        MissingKeyPolicy::Fail => {
                            proof {
                                assert(!resolves_from(template@, i as int, context@));
                                assert(!resolves_from(template@, 0, context@));
                            }
                            return None;
                        },
                        MissingKeyPolicy::Literal => {
                            out.append(template.substring_char(i, j + 2));
                            proof {
                                contribution = template@.subrange(i as int, j + 2);
                            }
                        },
                    }
                },
            }
            proof {
                assert(render_from(template@, i as int, context@, policy) == contribution + render_from(
                    template@,
                    j + 2,
                    context@,
                    policy,
                ));
                assert(out_prev + (contribution + render_from(template@, j + 2, context@, policy)) =~= (
                out_prev + contribution) + render_from(template@, j + 2, context@, policy));
            }
            i = j + 2;
        } else {
            out.append(template.substring_char(i, i + 1));
            proof {
                assert(template@.subrange(i as int, i + 1) =~= seq![template@[i as int]]);
                assert(out_prev + (seq![template@[i as int]] + render_from(template@, i + 1, context@, policy))
                    =~= (out_prev + seq![template@[i as int]]) + render_from(
                    template@,
                    i + 1,
                    context@,
                    policy,
                ));
            }
            i = i + 1;
        }
    }
    proof {
        assert(out@ + render_from(template@, hl as int, context@, policy) =~= out@);
    }
    Some(out)
}

/// Render a template with the empty-string policy for unbound names: the
/// default behaviour of the pipeline, which never fails.
pub fn render_liquid(template: &str, data: &TemplateContext) -> (r: String)
    requires
        wf_template(template@),
    ensures
        r@ == render_from(template@, 0, data@, MissingKeyPolicy::EmptyString),
{
    match render_template(template, data, MissingKeyPolicy::EmptyString) {
        Some(s) => s,
        None => {
            proof {
                assert(false);
            }
            String::new()
        },
    }
}

// Shifting a scan past a fixed prefix: scanning a concatenation from a
// position inside the second part sees only that part.

proof fn lemma_find_concat_shift(a: Seq<char>, b: Seq<char>, n: Seq<char>, k: int)
    requires
        0 <= k,
    ensures
        find_from(a + b, n, a.len() + k) == match find_from(b, n, k) {
            Option::None => Option::None::<int>,
            Option::Some(j) => Option::Some(a.len() + j),
        },
    decreases b.len() - k,
{
    let s = a + b;
    let p = a.len() + k;
    if n.len() == 0 || k + n.len() > b.len() {
    } else {
        assert(s.subrange(p, p + n.len()) =~= b.subrange(k, k + n.len()));
        if b.subrange(k, k + n.len()) == n {
        } else {
            lemma_find_concat_shift(a, b, n, k + 1);
        }
    }
}

proof fn lemma_render_concat_shift(
    a: Seq<char>,
    b: Seq<char>,
    k: int,
    ctx: Map<Seq<char>, Seq<char>>,
    policy: MissingKeyPolicy,
)
    requires
        0 <= k,
    ensures
        render_from(a + b, a.len() + k, ctx, policy) == render_from(b, k, ctx, policy),
        resolves_from(a + b, a.len() + k, ctx) == resolves_from(b, k, ctx),
    decreases b.len() - k,
{
    let s = a + b;
    let p = a.len() + k;
    if k >= b.len() {
    } else {
        if k + 2 <= b.len() {
            assert(s.subrange(p, p + 2) =~= b.subrange(k, k + 2));
        }
        if occurs_at(b, open_marker(), k) {
            assert(occurs_at(s, open_marker(), p));
            lemma_find_concat_shift(a, b, close_marker(), k + 2);
            match find_from(b, close_marker(), k + 2) {
                Option::None => {
                    assert(s.subrange(p, s.len() as int) =~= b.subrange(k, b.len() as int));
                },
                Option::Some(j) => {
                    lemma_find_from_some(b, close_marker(), k + 2, j);
                    assert(s.subrange(p + 2, a.len() + j) =~= b.subrange(k + 2, j));
                    assert(s.subrange(p, a.len() + j + 2) =~= b.subrange(k, j + 2));
                    lemma_render_concat_shift(a, b, j + 2, ctx, policy);
                },
            }
        } else {
            assert(!occurs_at(s, open_marker(), p)) by {
                if occurs_at(s, open_marker(), p) {
                    assert(b.subrange(k, k + 2) =~= s.subrange(p, p + 2));
                    assert(occurs_at(b, open_marker(), k));
                }
            }
            assert(seq![s[p]] =~= seq![b[k]]);
            lemma_render_concat_shift(a, b, k + 1, ctx, policy);
        }
    }
}

/// Scanning past positions that open no placeholder copies them unchanged.
proof fn lemma_render_skip_nonopen(
    s: Seq<char>,
    i: int,
    m: int,
    ctx: Map<Seq<char>, Seq<char>>,
    policy: MissingKeyPolicy,
)
    requires
        0 <= i <= m <= s.len(),
        forall|k: int| i <= k < m ==> !occurs_at(s, open_marker(), k),
    ensures
        render_from(s, i, ctx, policy) == s.subrange(i, m) + render_from(s, m, ctx, policy),
        resolves_from(s, i, ctx) == resolves_from(s, m, ctx),
    decreases m - i,
{
    if i == m {
        assert(s.subrange(i, m) + render_from(s, m, ctx, policy) =~= render_from(
            s,
            m,
            ctx,
            policy,
        ));
    } else {
        assert(!occurs_at(s, open_marker(), i));
        lemma_render_skip_nonopen(s, i + 1, m, ctx, policy);
        assert(seq![s[i]] + (s.subrange(i + 1, m) + render_from(s, m, ctx, policy)) =~= s.subrange(
            i,
            m,
        ) + render_from(s, m, ctx, policy));
    }
}

// Idempotence of rendering: the values a render substitutes open no new
// placeholder, so rendering the rendered output again changes nothing.

/// `s` holds no `{` character.
pub open spec fn brace_free(s: Seq<char>) -> bool {
    forall|i: int| 0 <= i < s.len() ==> s[i] != '{'
}

/// No value of the context holds a `{`, so no substitution can open a
/// placeholder.
pub open spec fn values_brace_free(ctx: Map<Seq<char>, Seq<char>>) -> bool {
    forall|k: Seq<char>| #[trigger] ctx.contains_key(k) ==> brace_free(ctx[k])
}

proof fn lemma_occurs_open_chars(s: Seq<char>, k: int)
    ensures
        occurs_at(s, open_marker(), k) <==> (0 <= k && k + 2 <= s.len() && s[k] == '{' && s[k + 1]
            == '{'),
{
    if 0 <= k && k + 2 <= s.len() {
        if s[k] == '{' && s[k + 1] == '{' {
            assert(s.subrange(k, k + 2) =~= open_marker());
        }
        if s.subrange(k, k + 2) == open_marker() {
            assert(s.subrange(k, k + 2)[0] == '{');
            assert(s.subrange(k, k + 2)[1] == '{');
        }
    }
}

/// The value at a close delimiter: two closing braces in a row.
proof fn lemma_occurs_close_chars(s: Seq<char>, k: int)
    ensures
        occurs_at(s, close_marker(), k) <==> (0 <= k && k + 2 <= s.len() && s[k] == '}' && s[k + 1]
            == '}'),
{
    if 0 <= k && k + 2 <= s.len() {
        if s[k] == '}' && s[k + 1] == '}' {
            assert(s.subrange(k, k + 2) =~= close_marker());
        }
        if s.subrange(k, k + 2) == close_marker() {
            assert(s.subrange(k, k + 2)[0] == '}');
            assert(s.subrange(k, k + 2)[1] == '}');
        }
    }
}

/// Rendering a well-formed template yields a text that rendering leaves
/// unchanged, provided no context value opens a placeholder: each piece of
/// the output is either literal text, a brace-free value, or a kept
/// placeholder that resolves to itself again.
proof fn lemma_render_self_stable(
    t: Seq<char>,
    i: int,
    ctx: Map<Seq<char>, Seq<char>>,
    policy: MissingKeyPolicy,
)
    requires
        0 <= i <= t.len(),
        wf_template(t),
        values_brace_free(ctx),
    ensures
        ({
            let out = render_from(t, i, ctx, policy);
            &&& render_from(out, 0, ctx, policy) == out
            &&& wf_template(out)
            &&& resolves_from(out, 0, ctx) == (policy is Literal ==> resolves_from(t, i, ctx))
            &&& (i < t.len() && !occurs_at(t, open_marker(), i) ==> out.len() > 0 && out[0]
                == t[i])
        }),
    decreases t.len() - i,
{
    let out = render_from(t, i, ctx, policy);
    if i >= t.len() {
        assert(out =~= Seq::<char>::empty());
        assert forall|k: int|
            occurs_at(out, open_marker(), k) implies find_from(out, close_marker(), k + 2)
            is Some by {
            lemma_occurs_open_chars(out, k);
        }
    } else if occurs_at(t, open_marker(), i) {
        assert(find_from(t, close_marker(), i + 2) is Some);
        let j = find_from(t, close_marker(), i + 2)->Some_0;
        lemma_find_from_some(t, close_marker(), i + 2, j);
        let name = trim_spec(t.subrange(i + 2, j));
        lemma_render_self_stable(t, j + 2, ctx, policy);
        let rest = render_from(t, j + 2, ctx, policy);
        if ctx.contains_key(name) {
            let v = ctx[name];
            assert(brace_free(v));
            assert(out == v + rest);
            assert forall|k: int|
                0 <= k < v.len() implies !occurs_at(v + rest, open_marker(), k) by {
                lemma_occurs_open_chars(v + rest, k);
                assert((v + rest)[k] == v[k]);
            }
            lemma_render_skip_nonopen(v + rest, 0, v.len() as int, ctx, policy);
            assert((v + rest).subrange(0, v.len() as int) =~= v);
            lemma_render_concat_shift(v, rest, 0, ctx, policy);
            assert(render_from(out, 0, ctx, policy) == v + rest);
            assert forall|k: int|
                occurs_at(v + rest, open_marker(), k) implies find_from(
                v + rest,
                close_marker(),
                k + 2,
            ) is Some by {
                lemma_occurs_open_chars(v + rest, k);
                assert(k >= v.len());
                let k2 = k - v.len();
                assert((v + rest)[k] == rest[k2]);
                assert((v + rest)[k + 1] == rest[k2 + 1]);
                lemma_occurs_open_chars(rest, k2);
                assert(occurs_at(rest, open_marker(), k2));
                assert(find_from(rest, close_marker(), k2 + 2) is Some);
                lemma_find_concat_shift(v, rest, close_marker(), k2 + 2);
            }
        } else if policy is Literal {
            let chunk = t.subrange(i, j + 2);
            assert(out == chunk + rest);
            let s2 = chunk + rest;
            lemma_occurs_open_chars(t, i);
            lemma_occurs_close_chars(t, j);
            assert(chunk[0] == '{' && chunk[1] == '{');
            assert(chunk[j - i] == '}' && chunk[j - i + 1] == '}');
            assert(occurs_at(s2, open_marker(), 0)) by {
                lemma_occurs_open_chars(s2, 0);
                assert(s2[0] == chunk[0]);
                assert(s2[1] == chunk[1]);
            }
            assert(occurs_at(s2, close_marker(), j - i)) by {
                lemma_occurs_close_chars(s2, j - i);
                assert(s2[j - i] == chunk[j - i]);
                assert(s2[j - i + 1] == chunk[j - i + 1]);
            }
            assert forall|k: int| 2 <= k < j - i implies !occurs_at(s2, close_marker(), k) by {
                lemma_occurs_close_chars(s2, k);
                if occurs_at(s2, close_marker(), k) {
                    assert(s2[k] == chunk[k]);
                    assert(s2[k + 1] == chunk[k + 1]);
                    lemma_occurs_close_chars(t, i + k);
                    assert(occurs_at(t, close_marker(), i + k));
                    assert(false);
                }
            }
            lemma_find_from_first(s2, close_marker(), 2, j - i);
            assert(s2.subrange(2, j - i) =~= t.subrange(i + 2, j));
            assert(s2.subrange(0, j - i + 2) =~= chunk);
            lemma_render_concat_shift(chunk, rest, 0, ctx, policy);
            assert(render_from(s2, j - i + 2, ctx, policy) == rest);
            assert(render_from(out, 0, ctx, policy) == chunk + rest);
            assert forall|k: int|
                occurs_at(s2, open_marker(), k) implies find_from(s2, close_marker(), k + 2)
                is Some by {
                lemma_occurs_open_chars(s2, k);
                if k <= j - i - 2 {
                    if find_from(s2, close_marker(), k + 2) is None {
                        lemma_find_from_none(s2, close_marker(), k + 2);
                        assert(!occurs_at(s2, close_marker(), j - i));
                        assert(false);
                    }
                } else if k < chunk.len() {
                    if k == j - i - 1 {
                        assert(s2[k + 1] == chunk[j - i]);
                        assert(false);
                    } else if k == j - i {
                        assert(s2[k] == chunk[j - i]);
                        assert(false);
                    } else {
                        assert(k == j - i + 1);
                        assert(s2[k] == chunk[j - i + 1]);
                        assert(false);
                    }
                } else {
                    let k2 = k - chunk.len();
                    assert(s2[k] == rest[k2]);
                    assert(s2[k + 1] == rest[k2 + 1]);
                    lemma_occurs_open_chars(rest, k2);
                    assert(occurs_at(rest, open_marker(), k2));
                    assert(find_from(rest, close_marker(), k2 + 2) is Some);
                    lemma_find_concat_shift(chunk, rest, close_marker(), k2 + 2);
                }
            }
            assert(!resolves_from(s2, 0, ctx));
        }
    } else {
        lemma_render_self_stable(t, i + 1, ctx, policy);
        let rest = render_from(t, i + 1, ctx, policy);
        let s2 = seq![t[i]] + rest;
        assert(out == s2);
        assert(!occurs_at(s2, open_marker(), 0)) by {
            lemma_occurs_open_chars(s2, 0);
            if s2.len() >= 2 && s2[0] == '{' && s2[1] == '{' {
                assert(s2[1] == rest[0]);
                if i + 1 < t.len() {
                    if occurs_at(t, open_marker(), i + 1) {
                        lemma_occurs_open_chars(t, i + 1);
                        lemma_occurs_open_chars(t, i);
                        assert(false);
                    } else {
                        assert(rest[0] == t[i + 1]);
                        lemma_occurs_open_chars(t, i);
                        assert(false);
                    }
                } else {
                    assert(rest.len() == 0);
                    assert(false);
                }
            }
        }
        lemma_render_skip_nonopen(s2, 0, 1, ctx, policy);
        assert(s2.subrange(0, 1) =~= seq![t[i]]);
        lemma_render_concat_shift(seq![t[i]], rest, 0, ctx, policy);
        assert(render_from(out, 0, ctx, policy) == seq![t[i]] + rest);
        assert forall|k: int|
            occurs_at(s2, open_marker(), k) implies find_from(s2, close_marker(), k + 2)
            is Some by {
            lemma_occurs_open_chars(s2, k);
            assert(k >= 1);
            let k2 = k - 1;
            assert(s2[k] == rest[k2]);
            assert(s2[k + 1] == rest[k2 + 1]);
            lemma_occurs_open_chars(rest, k2);
            assert(occurs_at(rest, open_marker(), k2));
            assert(find_from(rest, close_marker(), k2 + 2) is Some);
            lemma_find_concat_shift(seq![t[i]], rest, close_marker(), k2 + 2);
        }
    }
}

/// Rendering is idempotent: where no context value opens a placeholder,
/// the rendered output of a well-formed template is itself well formed and
/// rendering it again against the same context changes nothing. The output
/// is fully resolved except where the `Literal` policy kept an unbound
/// placeholder.
pub proof fn lemma_render_template_idempotent(
    t: Seq<char>,
    ctx: Map<Seq<char>, Seq<char>>,
    policy: MissingKeyPolicy,
)
    requires
        wf_template(t),
        values_brace_free(ctx),
    ensures
        wf_template(render_from(t, 0, ctx, policy)),
        render_from(render_from(t, 0, ctx, policy), 0, ctx, policy) == render_from(
            t,
            0,
            ctx,
            policy,
        ),
        resolves_from(render_from(t, 0, ctx, policy), 0, ctx) == (policy is Literal
            ==> resolves_from(t, 0, ctx)),
{
    lemma_render_self_stable(t, 0, ctx, policy);
}

} // verus!
