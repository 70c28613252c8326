//! Transform nodes: a handlebars template rendered against the node's
//! assembled input, whose rendering must itself be a JSON document.
use vstd::prelude::*;
use crate::json::{json_parse, parse_json, Json, JsonView, member};
use crate::text::concat2;
use crate::workflow::model::NodeOutcome;

verus! {

/// What handlebars' `render_template` gives, in strict mode and with no
/// registered templates, for a template and a context document: the
/// rendered text, or the text of its error.
pub uninterp spec fn handlebars_render(template: Seq<char>, context: JsonView) -> Result<Seq<char>, Seq<char>>;

/// Calls `handlebars::Handlebars::render_template` (strict mode, as the
/// engine's registry is set up) on `template` with `context` converted one
/// for one into a `serde_json::Value`. Trusted: the result, or the
/// `Display` text of the render error, is what `handlebars_render` names for
/// this template and context.
#[verifier::external_body]
fn render_with_handlebars(template: &str, context: &Json) -> (r: Result<String, String>)
    ensures
        match r {
            Ok(s) => handlebars_render(template@, context@) == Ok::<Seq<char>, Seq<char>>(s@),
            Err(e) => handlebars_render(template@, context@) == Err::<Seq<char>, Seq<char>>(e@),
        },
{
    let data = crate::json::value_of_json(context);
    let mut registry = handlebars::Handlebars::new();
    registry.set_strict_mode(true);
    registry.render_template(template, &data).map_err(|e| e.to_string())
}

pub open spec fn config_view(config: Option<Json>) -> Option<JsonView> {
    match config {
        Some(c) => Some(c@),
        None => None,
    }
}

/// A transform node's template: its config's `template` string, else `{}`.
pub open spec fn template_of(config: Option<JsonView>) -> Seq<char> {
    match config {
        Some(c) => match member(c, "template"@) {
            Some(JsonView::Str(t)) => t,
            _ => "{}"@,
        },
        None => "{}"@,
    }
}

/// Reads a transform node's template.
pub fn transform_template(config: &Option<Json>) -> (r: String)
    ensures
        r@ == template_of(config_view(*config)),
{
    match config {
        Some(c) => match crate::json::get_member(c, "template") {
            Some(Json::Str(t)) => t,
            _ => "{}".to_owned(),
        },
        None => "{}".to_owned(),
    }
}

pub open spec fn failure_view(o: NodeOutcome) -> Option<(Seq<char>, Seq<char>)> {
    match o {
        NodeOutcome::Failure { node_id, error } => Some((node_id@, error@)),
        _ => None,
    }
}

/// Renders a transform node's template against its assembled input. A
/// render error fails the node with `TransformError: ` and the error's text.
pub fn render_transform(node_id: &str, config: &Option<Json>, context: &Json) -> (r: Result<String, NodeOutcome>)
    ensures
        match handlebars_render(template_of(config_view(*config)), context@) {
            Ok(s) => r matches Ok(t) && t@ == s,
            Err(e) => r matches Err(o) && failure_view(o) == Some((node_id@, "TransformError: "@ + e)),
        },
{
    let template = transform_template(config);
    match render_with_handlebars(template.as_str(), context) {
        Ok(s) => Ok(s),
        Err(e) => Err(NodeOutcome::Failure {
            node_id: node_id.to_owned(),
            error: concat2("TransformError: ", e.as_str()),
        }),
    }
}

/// The outcome of a rendered transform: its output when the rendering read
/// as JSON, else a failure naming the parse error.
pub fn transform_outcome(node_id: String, parsed: Result<Json, String>) -> (r: NodeOutcome)
    ensures
        match parsed {
            Ok(v) => r == NodeOutcome::Success { node_id, output: v },
            Err(e) => failure_view(r) == Some((node_id@, "TransformError: template output is not valid JSON: "@ + e@)),
        },
{
    match parsed {
        Ok(output) => NodeOutcome::Success { node_id, output },
        Err(e) => NodeOutcome::Failure {
            node_id,
            error: concat2("TransformError: template output is not valid JSON: ", e.as_str()),
        },
    }
}

/// The outcome of a transform from its rendered text: the document the text
/// holds, or a failure naming the parse error.
pub fn transform_output(node_id: String, rendered: &str) -> (r: NodeOutcome)
    ensures
        match json_parse(rendered@) {
            Ok(v) => r matches NodeOutcome::Success { node_id: id, output } && id == node_id && output@ == v,
            Err(e) => failure_view(r) == Some((node_id@, "TransformError: template output is not valid JSON: "@ + e)),
        },
{
    transform_outcome(node_id, parse_json(rendered))
}

} // verus!
