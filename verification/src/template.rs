use vstd::prelude::*;

use crate::error::RteError;

verus! {

/// A (relative path, byte content) pair flowing through the pipeline. Each
/// stage yields a fresh owned record; no stage mutates one in place.
#[derive(Debug)]
pub struct TemplateFile {
    pub path: String,
    pub content: Vec<u8>,
}

/// Syntax mode for template delimiters.
#[derive(Debug, Clone, Copy, PartialEq, Eq, Structural)]
pub enum SyntaxMode {
    /// Standard delimiters: `{{ }}` variables, `{% %}` blocks.
    Jinja,
    /// Backstage software-template delimiters: `${{ }}` variables.
    Backstage,
}

/// Rendering configuration, built once per run and read-only thereafter.
pub struct TemplateConfig {
    pub syntax: SyntaxMode,
    pub root_value: Option<String>,
}

impl Default for TemplateConfig {
    /// Standard syntax, parameters wrapped under the `values` root key.
    fn default() -> (r: Self)
        ensures
            r.syntax == SyntaxMode::Jinja,
            r.root_value matches Some(v) && v@ == "values"@,
    {
        TemplateConfig { syntax: SyntaxMode::Jinja, root_value: Some("values".to_owned()) }
    }
}

#[verifier::external_type_specification]
#[verifier::external_body]
pub struct ExValue(serde_json::Value);

/// Whether `p` occurs in `s` starting at position `i`.
pub open spec fn has_substr_at(s: Seq<char>, p: Seq<char>, i: int) -> bool {
    0 <= i && i + p.len() <= s.len() && s.subrange(i, i + p.len()) == p
}

/// Whether `p` occurs anywhere in `s`.
pub open spec fn has_substr(s: Seq<char>, p: Seq<char>) -> bool {
    exists|i: int| has_substr_at(s, p, i)
}

/// Whether `s` contains none of the template start delimiters that are active
/// in the given mode. In Backstage mode the variable delimiter is `${{`, so
/// text written with the standard `{{` form carries no active delimiter; the
/// block and comment delimiters stay `{%` and `{#` in both modes.
pub open spec fn no_delims(backstage: bool, s: Seq<char>) -> bool {
    if backstage {
        !has_substr(s, "${{"@) && !has_substr(s, "{%"@) && !has_substr(s, "{#"@)
    } else {
        !has_substr(s, "{{"@) && !has_substr(s, "{%"@) && !has_substr(s, "{#"@)
    }
}

/// Template text that the engine emits verbatim: no active start delimiter,
/// and no trailing newline (the engine strips one trailing newline from every
/// template).
pub open spec fn preserves_verbatim(backstage: bool, s: Seq<char>) -> bool {
    no_delims(backstage, s) && (s.len() == 0 || (s.last() != '\n' && s.last() != '\r'))
}

/// What the template engine produces for a template string, a syntax mode
/// and a parameter tree: the rendered text, or nothing when rendering fails
/// (a syntax error, or a strict-undefined reference to an unset parameter).
/// A pure function of its arguments: the engine draws on no clock, randomness
/// or environment, and the parameter tree serializes in one fixed order.
pub uninterp spec fn render_of(
    template: Seq<char>,
    backstage: bool,
    params: serde_json::Value,
) -> Option<Seq<char>>;

/// Relies on minijinja: `Environment::template_from_str` plus
/// `Template::render`, with strict undefined behavior, and with the Backstage
/// `${{ }}` variable delimiters when `backstage` is set. The result is the
/// named render of the inputs; text containing none of the active start
/// delimiters is emitted verbatim, except that a single trailing newline
/// (`\n`, `\r` or `\r\n`) is stripped from every template.
#[verifier::external_body]
fn render_str(template: &str, backstage: bool, params: &serde_json::Value) -> (r: Result<
    String,
    String,
>)
    ensures
        match r {
            Ok(out) => render_of(template@, backstage, *params) == Some(out@) && (
            preserves_verbatim(backstage, template@) ==> out@ == template@),
            Err(_) => render_of(template@, backstage, *params) is None && !preserves_verbatim(
                backstage,
                template@,
            ),
        },
{
    let mut env = minijinja::Environment::new();
    env.set_undefined_behavior(minijinja::UndefinedBehavior::Strict);
    env.set_debug(true);
    if backstage {
        let syntax = minijinja::syntax::SyntaxConfig::builder()
            .variable_delimiters("${{", "}}")
            .build()
            .expect("valid backstage syntax config");
        env.set_syntax(syntax);
    }
    env.template_from_str(template)
        .and_then(|t| t.render(params))
        .map_err(|e| format!("{:#}", e))
}

/// What the root-value wrapping produces for a key and a parameter tree: the
/// one-entry object `{ key: params }`, a pure function of its arguments.
pub uninterp spec fn wrapped_of(key: Seq<char>, params: serde_json::Value) -> serde_json::Value;

/// Relies on serde_json: builds the one-entry object `{ key: params }`, the
/// root-value wrapping that makes templates reference `values.x`.
#[verifier::external_body]
fn wrap_params(key: &str, params: serde_json::Value) -> (r: serde_json::Value)
    ensures
        r == wrapped_of(key@, params),
{
    let mut map = serde_json::Map::new();
    map.insert(key.to_string(), params);
    serde_json::Value::Object(map)
}

/// A pull-based stage that renders each incoming record's path and content as
/// template strings against one immutable parameter tree.
pub struct TemplatedFileIter {
    files: Vec<TemplateFile>,
    pos: usize,
    backstage: bool,
    params: serde_json::Value,
}

impl TemplatedFileIter {
    /// The records not yet pulled, in order.
    pub closed spec fn remaining(&self) -> Seq<TemplateFile> {
        if self.pos <= self.files@.len() {
            self.files@.skip(self.pos as int)
        } else {
            Seq::<TemplateFile>::empty()
        }
    }

    /// Whether this stage renders with the Backstage delimiters.
    pub closed spec fn is_backstage(&self) -> bool {
        self.backstage
    }

    /// The parameter tree every render call of this stage sees.
    pub closed spec fn spec_params(&self) -> serde_json::Value {
        self.params
    }

    /// Builds the stage: delimiter syntax from the configuration, and the
    /// parameter tree wrapped under the configured root key, if any.
    pub fn with_config(inner: Vec<TemplateFile>, params: serde_json::Value, config: TemplateConfig) -> (r:
        Self)
        ensures
            r.remaining() == inner@,
            r.is_backstage() == (config.syntax is Backstage),
            r.spec_params() == (match config.root_value {
                Some(k) => wrapped_of(k@, params),
                None => params,
            }),
    {
        let backstage = match config.syntax {
            SyntaxMode::Backstage => true,
            SyntaxMode::Jinja => false,
        };
        let params = match config.root_value {
            Some(key) => wrap_params(key.as_str(), params),
            None => params,
        };
        let r = TemplatedFileIter { files: inner, pos: 0, backstage, params };
        proof {
            assert(r.remaining() =~= r.files@);
        }
        r
    }

    /// Pulls the next record and renders its path, then its content, each as
    /// the named render of the stage's parameter tree: a failing path render
    /// fails the record naming its path, non-UTF-8 content fails it with an
    /// encoding error, a failing content render fails it as a template error,
    /// and otherwise the record carries both rendered texts. A record whose
    /// path and content hold no active delimiter and no trailing newline
    /// passes through unchanged, whatever the parameters hold.
    pub fn next(&mut self) -> (r: Option<Result<TemplateFile, RteError>>)
        ensures
            final(self).is_backstage() == old(self).is_backstage(),
            final(self).spec_params() == old(self).spec_params(),
            old(self).remaining().len() == 0 ==> r is None && final(self).remaining().len() == 0,
            old(self).remaining().len() > 0 ==> {
                let f = old(self).remaining()[0];
                let bs = old(self).is_backstage();
                let v = old(self).spec_params();
                &&& final(self).remaining() == old(self).remaining().drop_first()
                &&& match render_of(f.path@, bs, v) {
                    None => r matches Some(g) && g matches Err(e) && (e
                        matches RteError::TemplatePath { path: p, .. } && p@ == f.path@),
                    Some(rp) => if !vstd::utf8::valid_utf8(f.content@) {
                        r matches Some(g) && g matches Err(e) && (e matches RteError::Encoding {
                            path: p,
                        } && p@ == f.path@)
                    } else {
                        match render_of(vstd::utf8::decode_utf8(f.content@), bs, v) {
                            None => r matches Some(g) && g matches Err(e) && (e
                                matches RteError::Template { path: p, .. } && p@ == f.path@),
                            Some(rc) => r matches Some(g) && g matches Ok(out) && out.path@ == rp
                                && out.content@ == vstd::utf8::encode_utf8(rc),
                        }
                    },
                }
                &&& (preserves_verbatim(bs, f.path@) && vstd::utf8::valid_utf8(f.content@)
                    && preserves_verbatim(bs, vstd::utf8::decode_utf8(f.content@))) ==> (r matches
                    Some(g) && g matches Ok(out) && out.path@ == f.path@ && out.content@
                    == f.content@)
            },
    {
        if self.pos >= self.files.len() {
            return None;
        }
        let idx = self.pos;
        self.pos = idx + 1;
        proof {
            assert(self.files@.skip(idx + 1) =~= self.files@.skip(idx as int).drop_first());
        }
        let rendered_path = match render_str(
            self.files[idx].path.as_str(),
            self.backstage,
            &self.params,
        ) {
            Ok(p) => p,
            Err(detail) => {
                return Some(
                    Err(RteError::TemplatePath { path: self.files[idx].path.clone(), detail }),
                );
            },
        };
        let content_str = match crate::strutil::utf8_to_string(self.files[idx].content.as_slice()) {
            Some(c) => c,
            None => {
                return Some(Err(RteError::Encoding { path: self.files[idx].path.clone() }));
            },
        };
        let rendered_content = match render_str(content_str.as_str(), self.backstage, &self.params) {
            Ok(c) => c,
            Err(detail) => {
                return Some(
                    Err(RteError::Template { path: self.files[idx].path.clone(), detail }),
                );
            },
        };
        let content_bytes = rendered_content.as_str().as_bytes_vec();
        proof {
            let f = self.files@[idx as int];
            if vstd::utf8::valid_utf8(f.content@) {
                vstd::utf8::decode_utf8_encode_utf8(f.content@);
            }
        }
        Some(Ok(TemplateFile { path: rendered_path, content: content_bytes }))
    }
}

} // verus!
