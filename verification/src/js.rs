//! JavaScript that a page evaluates to update itself.

use vstd::prelude::*;

use crate::outside;
use crate::text;

verus! {

/// A text as a JavaScript string literal.
pub fn js_string_literal(s: &str) -> (r: String)
    ensures
        r@ == outside::json_string(s@),
{
    outside::to_json_string(s)
}

/// A sequence of JavaScript snippets.
pub struct JsBuilder {
    snippets: Vec<String>,
}

/// A builder with an element that the next snippet is about.
pub struct JsQueryBuilder {
    builder: JsBuilder,
    expr: String,
}

impl View for JsBuilder {
    type V = Seq<Seq<char>>;

    closed spec fn view(&self) -> Seq<Seq<char>> {
        text::views(self.snippets@)
    }
}

impl JsQueryBuilder {
    /// The snippets so far.
    pub closed spec fn held(&self) -> Seq<Seq<char>> {
        self.builder@
    }

    /// The expression that names the element.
    pub closed spec fn target(&self) -> Seq<char> {
        self.expr@
    }
}

/// The expression that finds an element by a selector.
pub open spec fn query_expr(selector: Seq<char>) -> Seq<char> {
    "document.querySelector("@ + outside::json_string(selector) + ")"@
}

/// The options of a morph.
pub open spec fn morph_options(style: Option<Seq<char>>) -> Seq<char> {
    match style {
        Some(s) => ", {morphStyle: "@ + outside::json_string(s) + "}"@,
        None => Seq::empty(),
    }
}

/// The snippet that morphs an element into HTML.
pub open spec fn morph_snippet(expr: Seq<char>, html: Seq<char>, style: Option<Seq<char>>) -> Seq<
    char,
> {
    "var __slugEl = "@ + expr + "; if (__slugEl) { Idiomorph.morph(__slugEl, "@
        + outside::json_string(html) + morph_options(style) + "); }"@
}

/// The head of a snippet that depends on the current path.
pub open spec fn path_test(path: Seq<char>) -> Seq<char> {
    "var __slugHere = window.location.pathname + window.location.search; var __slugPath = "@
        + outside::json_string(path)
}

impl JsBuilder {
    /// No snippets.
    pub fn new() -> (r: JsBuilder)
        ensures
            r@ == Seq::<Seq<char>>::empty(),
    {
        let r = JsBuilder { snippets: Vec::new() };
        assert(r@ =~= Seq::empty());
        r
    }

    fn with(self, snippet: String) -> (r: JsBuilder)
        ensures
            r@ == self@.push(snippet@),
    {
        let ghost before = self@;
        let mut snippets: Vec<String> = self.snippets;
        snippets.push(snippet);
        let r = JsBuilder { snippets };
        assert(r@ =~= before.push(snippet@));
        r
    }

    /// Morphs the element that a selector finds.
    pub fn morph_selector(self, selector: &str, html: &str) -> (r: JsBuilder)
        ensures
            r@ == self@.push(morph_snippet(query_expr(selector@), html@, None)),
    {
        let lit: String = js_string_literal(selector);
        let expr: String = text::cat3("document.querySelector(", lit.as_str(), ")");
        self.morph_expr(expr.as_str(), html, None)
    }

    /// Morphs the element that an expression names.
    pub fn morph_expr(self, expr: &str, html: &str, morph_style: Option<&str>) -> (r: JsBuilder)
        ensures
            r@ == self@.push(morph_snippet(expr@, html@, text::opt_str(morph_style))),
    {
        let lit: String = js_string_literal(html);
        let opts: String = match morph_style {
            Some(style) => {
                let s: String = js_string_literal(style);
                text::cat3(", {morphStyle: ", s.as_str(), "}")
            },
            None => String::new(),
        };
        let mut out: String = "var __slugEl = ".to_owned();
        out.append(expr);
        out.append("; if (__slugEl) { Idiomorph.morph(__slugEl, ");
        out.append(lit.as_str());
        out.append(opts.as_str());
        out.append("); }");
        self.with(out)
    }

    /// The element that a selector finds.
    pub fn qs(self, selector: &str) -> (r: JsQueryBuilder)
        ensures
            r.held() == self@,
            r.target() == query_expr(selector@),
    {
        let lit: String = js_string_literal(selector);
        JsQueryBuilder {
            builder: self,
            expr: text::cat3("document.querySelector(", lit.as_str(), ")"),
        }
    }

    /// The element with an id.
    pub fn id(self, id: &str) -> (r: JsQueryBuilder)
        ensures
            r.held() == self@,
            r.target() == query_expr("#"@ + id@),
    {
        let sel: String = text::cat("#", id);
        self.qs(sel.as_str())
    }

    /// Runs other snippets where the current path is the given one, with or without a query.
    pub fn if_current_path_matches(self, path: &str, inner: JsBuilder) -> (r: JsBuilder)
        ensures
            r@ == self@.push(
                path_test(path@)
                    + "; if (__slugHere === __slugPath || __slugHere.indexOf(__slugPath + '?') === 0) { "@
                    + text::join(inner@, " "@) + " }"@,
            ),
    {
        let lit: String = js_string_literal(path);
        let code: String = inner.build();
        let mut out: String =
            "var __slugHere = window.location.pathname + window.location.search; var __slugPath = ".to_owned();
        out.append(lit.as_str());
        out.append(
            "; if (__slugHere === __slugPath || __slugHere.indexOf(__slugPath + '?') === 0) { ",
        );
        out.append(code.as_str());
        out.append(" }");
        self.with(out)
    }

    /// Runs other snippets where the current path is another one.
    pub fn if_current_path_not_matches(self, path: &str, inner: JsBuilder) -> (r: JsBuilder)
        ensures
            r@ == self@.push(
                path_test(path@)
                    + "; if (!(__slugHere === __slugPath || __slugHere.indexOf(__slugPath + '?') === 0)) { "@
                    + text::join(inner@, " "@) + " }"@,
            ),
    {
        let lit: String = js_string_literal(path);
        let code: String = inner.build();
        let mut out: String =
            "var __slugHere = window.location.pathname + window.location.search; var __slugPath = ".to_owned();
        out.append(lit.as_str());
        out.append(
            "; if (!(__slugHere === __slugPath || __slugHere.indexOf(__slugPath + '?') === 0)) { ",
        );
        out.append(code.as_str());
        out.append(" }");
        self.with(out)
    }

    /// Goes to another page.
    pub fn redirect(self, to: &str) -> (r: JsBuilder)
        ensures
            r@ == self@.push("window.location = "@ + outside::json_string(to@) + ";"@),
    {
        let lit: String = js_string_literal(to);
        self.with(text::cat3("window.location = ", lit.as_str(), ";"))
    }

    /// The snippets one after another.
    pub fn build(self) -> (r: String)
        ensures
            r@ == text::join(self@, " "@),
    {
        text::joined(&self.snippets, " ")
    }
}

/// The head of a snippet about one element.
pub open spec fn target_head(expr: Seq<char>) -> Seq<char> {
    "var __slugTarget = "@ + expr
}

impl JsQueryBuilder {
    /// Morphs the element.
    pub fn morph(self, html: &str) -> (r: JsBuilder)
        ensures
            r@ == self.held().push(
                target_head(self.target())
                    + "; if (__slugTarget) { Idiomorph.morph(__slugTarget, "@
                    + outside::json_string(html@) + "); }"@,
            ),
    {
        let lit: String = js_string_literal(html);
        let mut out: String = "var __slugTarget = ".to_owned();
        out.append(self.expr.as_str());
        out.append("; if (__slugTarget) { Idiomorph.morph(__slugTarget, ");
        out.append(lit.as_str());
        out.append("); }");
        self.builder.with(out)
    }

    /// Morphs the inside of the element.
    pub fn morph_inner(self, html: &str) -> (r: JsBuilder)
        ensures
            r@ == self.held().push(
                target_head(self.target())
                    + "; if (__slugTarget) { Idiomorph.morph(__slugTarget, "@
                    + outside::json_string(html@) + ", {morphStyle: 'innerHTML'}); }"@,
            ),
    {
        let lit: String = js_string_literal(html);
        let mut out: String = "var __slugTarget = ".to_owned();
        out.append(self.expr.as_str());
        out.append("; if (__slugTarget) { Idiomorph.morph(__slugTarget, ");
        out.append(lit.as_str());
        out.append(", {morphStyle: 'innerHTML'}); }");
        self.builder.with(out)
    }

    /// Resets the form that the element is.
    pub fn reset(self) -> (r: JsBuilder)
        ensures
            r@ == self.held().push(
                target_head(self.target()) + "; if (__slugTarget) { __slugTarget.reset(); }"@,
            ),
    {
        let mut out: String = "var __slugTarget = ".to_owned();
        out.append(self.expr.as_str());
        out.append("; if (__slugTarget) { __slugTarget.reset(); }");
        self.builder.with(out)
    }
}

/// The call that posts a compact JSON command and evaluates what comes back.
pub open spec fn ui_fetch(rpc: Seq<char>) -> Seq<char> {
    "fetch('/ui',{method:'POST',headers:{'Content-Type':'application/x-www-form-urlencoded'},body:new URLSearchParams({__rpc__:"@
        + outside::json_string(rpc)
        + "}).toString(),credentials:'same-origin'}).then(r=>r.text()).then(eval);"@
}

fn ui_fetch_call(rpc: &str) -> (r: String)
    ensures
        r@ == ui_fetch(rpc@),
{
    let lit: String = js_string_literal(rpc);
    text::cat3(
        "fetch('/ui',{method:'POST',headers:{'Content-Type':'application/x-www-form-urlencoded'},body:new URLSearchParams({__rpc__:",
        lit.as_str(),
        "}).toString(),credentials:'same-origin'}).then(r=>r.text()).then(eval);",
    )
}

/// What a click on a link or button of a thread does: it posts a command.
pub fn thread_ui_fetch_onclick(rpc_compact_json: &str) -> (r: String)
    ensures
        r@ == ui_fetch(rpc_compact_json@) + "return false"@,
{
    let call: String = ui_fetch_call(rpc_compact_json);
    text::cat(call.as_str(), "return false")
}

/// What a click on a button of the garden does: it posts a command.
pub fn garden_ui_fetch_onclick(rpc_compact_json: &str) -> (r: String)
    ensures
        r@ == ui_fetch(rpc_compact_json@) + "return false"@,
{
    thread_ui_fetch_onclick(rpc_compact_json)
}

/// What a click on the button that makes a thread public does: it asks, then posts a command.
pub fn graduate_onclick(tag: &str, rpc: &str) -> (r: String)
    ensures
        r@ == "if(confirm('Graduate #"@ + tag@
            + " to the public forum? All posts and garden votes will be copied to public #"@ + tag@
            + ".')){"@ + ui_fetch(rpc@) + "}return false;"@,
{
    let call: String = ui_fetch_call(rpc);
    let mut out: String = "if(confirm('Graduate #".to_owned();
    out.append(tag);
    out.append(" to the public forum? All posts and garden votes will be copied to public #");
    out.append(tag);
    out.append(".')){");
    out.append(call.as_str());
    out.append("}return false;");
    out
}

} // verus!
