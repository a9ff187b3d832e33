use limonite::template::{
    render_liquid, render_template, template_is_well_formed, MissingKeyPolicy, TemplateContext,
};
use limonite::util::render_markdown;

#[test]
fn renders_liquid() {
    let mut data = TemplateContext::new();
    data.set_val("title", "sup");
    assert_eq!(render_liquid("hello, {{ title }}", &data), "hello, sup");
}

#[test]
fn markup_then_template_is_order_preserving() {
    let html = render_markdown("x");
    assert_eq!(html, "<p>x</p>\n");
    let mut ctx = TemplateContext::new();
    ctx.set_val("content", html.trim_end());
    assert_eq!(render_liquid("Hello {{ content }}\n", &ctx), "Hello <p>x</p>\n");
}

#[test]
fn missing_name_renders_empty_by_default() {
    let ctx = TemplateContext::new();
    assert_eq!(render_liquid("a {{ gone }} b", &ctx), "a  b");
}

#[test]
fn missing_name_fails_under_fail_policy() {
    let ctx = TemplateContext::new();
    let r = render_template("a {{ gone }} b", &ctx, MissingKeyPolicy::Fail);
    assert!(r.is_none());
}

#[test]
fn bound_names_succeed_under_fail_policy() {
    let mut ctx = TemplateContext::new();
    ctx.set_val("here", "x");
    let r = render_template("a {{ here }} b", &ctx, MissingKeyPolicy::Fail);
    assert_eq!(r.unwrap(), "a x b");
}

#[test]
fn missing_name_is_kept_under_literal_policy() {
    let ctx = TemplateContext::new();
    let r = render_template("a {{ gone }} b", &ctx, MissingKeyPolicy::Literal);
    assert_eq!(r.unwrap(), "a {{ gone }} b");
}

#[test]
fn later_binding_shadows_earlier_one() {
    let mut ctx = TemplateContext::new();
    ctx.set_val("x", "first");
    ctx.set_val("x", "second");
    assert_eq!(render_liquid("{{ x }}", &ctx), "second");
}

#[test]
fn rendering_is_idempotent_on_placeholder_free_values() {
    let mut ctx = TemplateContext::new();
    ctx.set_val("x", "value");
    let once = render_liquid("a {{ x }} b {{ y }} c", &ctx);
    assert_eq!(once, "a value b  c");
    let twice = render_liquid(&once, &ctx);
    assert_eq!(twice, once);
}

#[test]
fn placeholder_names_are_trimmed() {
    let mut ctx = TemplateContext::new();
    ctx.set_val("title", "sup");
    assert_eq!(render_liquid("{{title}} and {{   title   }}", &ctx), "sup and sup");
}

#[test]
fn well_formedness_is_decidable() {
    assert!(template_is_well_formed("a {{ x }} b"));
    assert!(template_is_well_formed("no placeholders"));
    assert!(!template_is_well_formed("a {{ x"));
}

#[test]
fn literal_braces_without_placeholders_are_kept() {
    let ctx = TemplateContext::new();
    assert_eq!(render_liquid("single { and } stay", &ctx), "single { and } stay");
}

#[test]
fn adjacent_placeholders_keep_their_order() {
    let mut ctx = TemplateContext::new();
    ctx.set_val("a", "1");
    ctx.set_val("b", "2");
    assert_eq!(render_liquid("{{a}}{{b}}", &ctx), "12");
}
