//! The declarative access policy and its evaluator.
//!
//! A policy gates requests by HTTP method, by deployment id for paths of the
//! shape `/engines/<id>/...`, by endpoint rules compiled per method, and by
//! model rules that check the model named in a path or a JSON body.

use crate::json::{spec_obj_get, JsonValue, Jv};
use crate::matcher::{
    endpoints_match, endpoints_to_regex, wildcards_match, wildcards_to_regex, EndpointSet,
    PathTemplate, WildcardSet,
};
use vstd::prelude::*;

verus! {

/// An HTTP request method.
#[derive(PartialEq, Eq, Structural, Clone, Copy, Debug)]
pub enum Method {
    Get,
    Head,
    Post,
    Put,
    Delete,
    Connect,
    Options,
    Trace,
    Patch,
}

impl Method {
    /// Whether the method is safe in the HTTP sense: it never carries a body
    /// the policy would need to inspect.
    pub fn is_safe(&self) -> (r: bool)
        ensures
            r == (*self == Method::Get || *self == Method::Head || *self == Method::Options
                || *self == Method::Trace),
    {
        match self {
            Method::Get | Method::Head | Method::Options | Method::Trace => true,
            _ => false,
        }
    }

    /// The method's upper-case name.
    pub open spec fn spec_name(self) -> Seq<u8> {
        match self {
            Method::Get => seq![0x47u8, 0x45u8, 0x54u8],
            Method::Head => seq![0x48u8, 0x45u8, 0x41u8, 0x44u8],
            Method::Post => seq![0x50u8, 0x4Fu8, 0x53u8, 0x54u8],
            Method::Put => seq![0x50u8, 0x55u8, 0x54u8],
            Method::Delete => seq![0x44u8, 0x45u8, 0x4Cu8, 0x45u8, 0x54u8, 0x45u8],
            Method::Connect => seq![0x43u8, 0x4Fu8, 0x4Eu8, 0x4Eu8, 0x45u8, 0x43u8, 0x54u8],
            Method::Options => seq![0x4Fu8, 0x50u8, 0x54u8, 0x49u8, 0x4Fu8, 0x4Eu8, 0x53u8],
            Method::Trace => seq![0x54u8, 0x52u8, 0x41u8, 0x43u8, 0x45u8],
            Method::Patch => seq![0x50u8, 0x41u8, 0x54u8, 0x43u8, 0x48u8],
        }
    }

    /// The method's upper-case name as bytes.
    pub fn name_bytes(&self) -> (r: Vec<u8>)
        ensures
            r@ == self.spec_name(),
    {
        let mut out: Vec<u8> = Vec::new();
        match self {
            Method::Get => {
                out.push(0x47);
                out.push(0x45);
                out.push(0x54);
            },
            Method::Head => {
                out.push(0x48);
                out.push(0x45);
                out.push(0x41);
                out.push(0x44);
            },
            Method::Post => {
                out.push(0x50);
                out.push(0x4F);
                out.push(0x53);
                out.push(0x54);
            },
            Method::Put => {
                out.push(0x50);
                out.push(0x55);
                out.push(0x54);
            },
            Method::Delete => {
                out.push(0x44);
                out.push(0x45);
                out.push(0x4C);
                out.push(0x45);
                out.push(0x54);
                out.push(0x45);
            },
            Method::Connect => {
                out.push(0x43);
                out.push(0x4F);
                out.push(0x4E);
                out.push(0x4E);
                out.push(0x45);
                out.push(0x43);
                out.push(0x54);
            },
            Method::Options => {
                out.push(0x4F);
                out.push(0x50);
                out.push(0x54);
                out.push(0x49);
                out.push(0x4F);
                out.push(0x4E);
                out.push(0x53);
            },
            Method::Trace => {
                out.push(0x54);
                out.push(0x52);
                out.push(0x41);
                out.push(0x43);
                out.push(0x45);
            },
            Method::Patch => {
                out.push(0x50);
                out.push(0x41);
                out.push(0x54);
                out.push(0x43);
                out.push(0x48);
            },
        }
        assert(out@ =~= self.spec_name());
        out
    }
}

/// The `[global]` section of a policy.
pub struct Global {
    pub whitelist: bool,
    pub methods: Vec<(Method, bool)>,
    pub allow_deployments: Vec<Vec<u8>>,
}

/// First value bound to `m`, if any.
pub open spec fn method_flag(ms: Seq<(Method, bool)>, m: Method) -> Option<bool>
    decreases ms.len(),
{
    if ms.len() == 0 {
        None
    } else if ms[0].0 == m {
        Some(ms[0].1)
    } else {
        method_flag(ms.drop_first(), m)
    }
}

/// The deployment id is on the allow list.
pub open spec fn deployment_allowed(ds: Seq<Vec<u8>>, id: Seq<u8>) -> bool {
    exists|i: int| 0 <= i < ds.len() && (#[trigger] ds[i])@ == id
}

/// First index at or after `i` holding a slash.
pub open spec fn seg_end(s: Seq<u8>, i: int) -> int
    decreases s.len() - i,
{
    if 0 <= i < s.len() && s[i] != 0x2F {
        seg_end(s, i + 1)
    } else {
        i
    }
}

/// The prefix `/engines/`.
pub open spec fn engines_prefix() -> Seq<u8> {
    seq![0x2Fu8, 0x65u8, 0x6Eu8, 0x67u8, 0x69u8, 0x6Eu8, 0x65u8, 0x73u8, 0x2Fu8]
}

/// Splits a path of the shape `/engines/<id>/<rest>` into the id and the
/// remainder starting at the second slash; `<id>` is nonempty and slash-free
/// and `<rest>` is nonempty without a newline.
pub open spec fn deployment_split(path: Seq<u8>) -> Option<(Seq<u8>, Seq<u8>)> {
    let e = seg_end(path, 9);
    if path.len() >= 9 && path.take(9) == engines_prefix() && e > 9 && e + 1 < path.len() && (
    forall|j: int| e + 1 <= j < path.len() ==> path[j] != 0x0A) {
        Some((path.subrange(9, e), path.skip(e)))
    } else {
        None
    }
}

/// A model gate: which model names a rule admits.
pub struct ModelOption {
    pub allows: WildcardSet,
    pub disallows: WildcardSet,
    pub allow_omitted: bool,
}

impl ModelOption {
    /// A name passes when the disallow list misses it and the allow list
    /// hits it; an absent name passes only when omission is allowed.
    pub open spec fn spec_admits(&self, model: Option<Seq<u8>>) -> bool {
        match model {
            None => self.allow_omitted,
            Some(m) => !wildcards_match(self.disallows@, m) && wildcards_match(self.allows@, m),
        }
    }

    /// Checks one optional model name, returning the exact error the
    /// gateway reports.
    pub fn validate(&self, model: Option<&[u8]>) -> (r: Result<(), AclError>)
        ensures
            match model {
                None => if self.allow_omitted {
                    r is Ok
                } else {
                    r matches Err(AclError::MissingModel)
                },
                Some(m) => if self.spec_admits(Some(m@)) {
                    r is Ok
                } else {
                    r matches Err(AclError::ModelNotAllowed(mm)) && mm@ == m@
                },
            },
    {
        match model {
            None => {
                if self.allow_omitted {
                    Ok(())
                } else {
                    Err(AclError::MissingModel)
                }
            },
            Some(m) => {
                if self.disallows.is_match(m) || !self.allows.is_match(m) {
                    Err(AclError::ModelNotAllowed(crate::json::copy_range(m, 0, m.len())))
                } else {
                    Ok(())
                }
            },
        }
    }
}

/// Builds the default model gate: allow every model, disallow none, forbid
/// omission.
impl Default for ModelOption {
    fn default() -> (r: Self)
        ensures
            r.allows@ == seq![seq![0x2Au8]],
            r.disallows@ == Seq::<Seq<u8>>::empty(),
            !r.allow_omitted,
    {
        let mut star: Vec<u8> = Vec::new();
        star.push(0x2A);
        let mut allows: Vec<Vec<u8>> = Vec::new();
        allows.push(star);
        let empty: Vec<Vec<u8>> = Vec::new();
        proof {
            assert(allows.deep_view() =~~= seq![seq![0x2Au8]]);
            assert(empty.deep_view() =~~= Seq::<Seq<u8>>::empty());
        }
        ModelOption {
            allows: wildcards_to_regex(allows),
            disallows: wildcards_to_regex(empty),
            allow_omitted: false,
        }
    }
}

/// Why the policy rejected a request.
pub enum AclError {
    MethodNotAllowed(Method),
    DeploymentNotAllowed(Vec<u8>),
    EndpointNotAllowed(Method, Vec<u8>),
    ModelNotAllowed(Vec<u8>),
    MissingModel,
}

impl AclError {
    /// The HTTP status the error maps to.
    pub fn status_code(&self) -> (r: u16)
        ensures
            r == (if self is MethodNotAllowed {
                405int
            } else {
                403int
            }),
    {
        match self {
            AclError::MethodNotAllowed(_) => 405,
            _ => 403,
        }
    }

    /// The error message's bytes.
    pub open spec fn spec_message(&self) -> Seq<u8> {
        match self {
            AclError::MethodNotAllowed(m) => method_word() + m.spec_name() + not_allowed_word(),
            AclError::DeploymentNotAllowed(d) => deployment_word() + d@ + not_allowed_word(),
            AclError::EndpointNotAllowed(m, e) => endpoint_word() + m.spec_name() + seq![0x20u8]
                + e@ + not_allowed_word(),
            AclError::ModelNotAllowed(mo) => model_word() + mo@ + not_allowed_word(),
            AclError::MissingModel => missing_model_word(),
        }
    }

    /// The textual form of the error, as message bytes.
    pub fn message(&self) -> (r: Vec<u8>)
        ensures
            r@ == self.spec_message(),
    {
        let mut out: Vec<u8> = Vec::new();
        match self {
            AclError::MethodNotAllowed(m) => {
                push_word(&mut out, 0);
                let nb = m.name_bytes();
                out.extend_from_slice(nb.as_slice());
                push_word(&mut out, 4);
            },
            AclError::DeploymentNotAllowed(d) => {
                push_word(&mut out, 1);
                out.extend_from_slice(d.as_slice());
                push_word(&mut out, 4);
            },
            AclError::EndpointNotAllowed(m, e) => {
                push_word(&mut out, 2);
                let nb = m.name_bytes();
                out.extend_from_slice(nb.as_slice());
                out.push(0x20);
                out.extend_from_slice(e.as_slice());
                push_word(&mut out, 4);
            },
            AclError::ModelNotAllowed(mo) => {
                push_word(&mut out, 3);
                out.extend_from_slice(mo.as_slice());
                push_word(&mut out, 4);
            },
            AclError::MissingModel => {
                push_word(&mut out, 5);
            },
        }
        assert(out@ =~= self.spec_message());
        out
    }
}

/// `"Method "`.
pub open spec fn method_word() -> Seq<u8> {
    seq![0x4Du8, 0x65u8, 0x74u8, 0x68u8, 0x6Fu8, 0x64u8, 0x20u8]
}

/// `"Deployment "`.
pub open spec fn deployment_word() -> Seq<u8> {
    seq![0x44u8, 0x65u8, 0x70u8, 0x6Cu8, 0x6Fu8, 0x79u8, 0x6Du8, 0x65u8, 0x6Eu8, 0x74u8, 0x20u8]
}

/// `"Endpoint "`.
pub open spec fn endpoint_word() -> Seq<u8> {
    seq![0x45u8, 0x6Eu8, 0x64u8, 0x70u8, 0x6Fu8, 0x69u8, 0x6Eu8, 0x74u8, 0x20u8]
}

/// `"Model "`.
pub open spec fn model_word() -> Seq<u8> {
    seq![0x4Du8, 0x6Fu8, 0x64u8, 0x65u8, 0x6Cu8, 0x20u8]
}

/// `" not allowed"`.
pub open spec fn not_allowed_word() -> Seq<u8> {
    seq![
        0x20u8,
        0x6Eu8,
        0x6Fu8,
        0x74u8,
        0x20u8,
        0x61u8,
        0x6Cu8,
        0x6Cu8,
        0x6Fu8,
        0x77u8,
        0x65u8,
        0x64u8,
    ]
}

/// `"Missing model"`.
pub open spec fn missing_model_word() -> Seq<u8> {
    seq![
        0x4Du8,
        0x69u8,
        0x73u8,
        0x73u8,
        0x69u8,
        0x6Eu8,
        0x67u8,
        0x20u8,
        0x6Du8,
        0x6Fu8,
        0x64u8,
        0x65u8,
        0x6Cu8,
    ]
}

/// Appends one of the fixed message words.
fn push_word(out: &mut Vec<u8>, which: u8)
    requires
        which <= 5,
    ensures
        final(out)@ == old(out)@ + (if which == 0 {
            method_word()
        } else if which == 1 {
            deployment_word()
        } else if which == 2 {
            endpoint_word()
        } else if which == 3 {
            model_word()
        } else if which == 4 {
            not_allowed_word()
        } else {
            missing_model_word()
        }),
{
    if which == 0 {
        out.push(0x4D);
        out.push(0x65);
        out.push(0x74);
        out.push(0x68);
        out.push(0x6F);
        out.push(0x64);
        out.push(0x20);
        assert(out@ =~= old(out)@ + method_word());
    } else if which == 1 {
        out.push(0x44);
        out.push(0x65);
        out.push(0x70);
        out.push(0x6C);
        out.push(0x6F);
        out.push(0x79);
        out.push(0x6D);
        out.push(0x65);
        out.push(0x6E);
        out.push(0x74);
        out.push(0x20);
        assert(out@ =~= old(out)@ + deployment_word());
    } else if which == 2 {
        out.push(0x45);
        out.push(0x6E);
        out.push(0x64);
        out.push(0x70);
        out.push(0x6F);
        out.push(0x69);
        out.push(0x6E);
        out.push(0x74);
        out.push(0x20);
        assert(out@ =~= old(out)@ + endpoint_word());
    } else if which == 3 {
        out.push(0x4D);
        out.push(0x6F);
        out.push(0x64);
        out.push(0x65);
        out.push(0x6C);
        out.push(0x20);
        assert(out@ =~= old(out)@ + model_word());
    } else if which == 4 {
        out.push(0x20);
        out.push(0x6E);
        out.push(0x6F);
        out.push(0x74);
        out.push(0x20);
        out.push(0x61);
        out.push(0x6C);
        out.push(0x6C);
        out.push(0x6F);
        out.push(0x77);
        out.push(0x65);
        out.push(0x64);
        assert(out@ =~= old(out)@ + not_allowed_word());
    } else {
        out.push(0x4D);
        out.push(0x69);
        out.push(0x73);
        out.push(0x73);
        out.push(0x69);
        out.push(0x6E);
        out.push(0x67);
        out.push(0x20);
        out.push(0x6D);
        out.push(0x6F);
        out.push(0x64);
        out.push(0x65);
        out.push(0x6C);
        assert(out@ =~= old(out)@ + missing_model_word());
    }
}

/// The serde default used for the `whitelist` switch of a policy document.
pub fn default_true() -> (r: bool)
    ensures
        r,
{
    true
}

// ---------------------------------------------------------------------------
// The compiled policy
// ---------------------------------------------------------------------------

/// The compiled policy: the global gates plus per-method endpoint matchers
/// and model rules. Model rules keyed by a literal endpoint check the JSON
/// body; model rules keyed by a `{model}` template check the path.
pub struct ApiAcl {
    pub global: Global,
    pub endpoint: Vec<(Method, EndpointSet)>,
    pub model_body: Vec<(Method, Vec<(Vec<u8>, ModelOption)>)>,
    pub model_path: Vec<(Method, Vec<(PathTemplate, ModelOption)>)>,
}

/// First endpoint matcher bound to `m`.
pub open spec fn ep_set_for(es: Seq<(Method, EndpointSet)>, m: Method) -> Option<EndpointSet>
    decreases es.len(),
{
    if es.len() == 0 {
        None
    } else if es[0].0 == m {
        Some(es[0].1)
    } else {
        ep_set_for(es.drop_first(), m)
    }
}

/// First body-rule table bound to `m`.
pub open spec fn body_rules_for(
    es: Seq<(Method, Vec<(Vec<u8>, ModelOption)>)>,
    m: Method,
) -> Option<Vec<(Vec<u8>, ModelOption)>>
    decreases es.len(),
{
    if es.len() == 0 {
        None
    } else if es[0].0 == m {
        Some(es[0].1)
    } else {
        body_rules_for(es.drop_first(), m)
    }
}

/// First path-rule table bound to `m`.
pub open spec fn path_rules_for(
    es: Seq<(Method, Vec<(PathTemplate, ModelOption)>)>,
    m: Method,
) -> Option<Vec<(PathTemplate, ModelOption)>>
    decreases es.len(),
{
    if es.len() == 0 {
        None
    } else if es[0].0 == m {
        Some(es[0].1)
    } else {
        path_rules_for(es.drop_first(), m)
    }
}

/// First body rule keyed exactly by `key`.
pub open spec fn body_option_for(
    entries: Seq<(Vec<u8>, ModelOption)>,
    key: Seq<u8>,
) -> Option<ModelOption>
    decreases entries.len(),
{
    if entries.len() == 0 {
        None
    } else if entries[0].0@ == key {
        Some(entries[0].1)
    } else {
        body_option_for(entries.drop_first(), key)
    }
}

/// First path rule whose template applies to `path`.
pub open spec fn path_option_for(
    entries: Seq<(PathTemplate, ModelOption)>,
    path: Seq<u8>,
) -> Option<(PathTemplate, ModelOption)>
    decreases entries.len(),
{
    if entries.len() == 0 {
        None
    } else if entries[0].0.spec_matches(path) {
        Some(entries[0])
    } else {
        path_option_for(entries.drop_first(), path)
    }
}

/// What `validate` decides, stated declaratively.
pub enum AclOutcome {
    MethodErr,
    DeploymentErr(Seq<u8>),
    EndpointErr(Seq<u8>),
    NoValidator,
    UseBody(ModelOption),
    UsePath(PathTemplate, ModelOption),
}

pub open spec fn spec_after_deployment(acl: ApiAcl, m: Method, rem: Seq<u8>) -> AclOutcome {
    let matched = match ep_set_for(acl.endpoint@, m) {
        Some(es) => endpoints_match(es.rules_view(), rem),
        None => false,
    };
    if (acl.global.whitelist && !matched) || (!acl.global.whitelist && matched) {
        AclOutcome::EndpointErr(rem)
    } else {
        let body_hit = match body_rules_for(acl.model_body@, m) {
            Some(entries) => body_option_for(entries@, rem),
            None => None,
        };
        match body_hit {
            Some(o) => AclOutcome::UseBody(o),
            None => {
                let path_hit = match path_rules_for(acl.model_path@, m) {
                    Some(entries) => path_option_for(entries@, rem),
                    None => None,
                };
                match path_hit {
                    Some(p) => AclOutcome::UsePath(p.0, p.1),
                    None => AclOutcome::NoValidator,
                }
            },
        }
    }
}

/// The full decision of the policy over a method and path.
pub open spec fn spec_outcome(acl: ApiAcl, m: Method, path: Seq<u8>) -> AclOutcome {
    if method_flag(acl.global.methods@, m) != Some(true) {
        AclOutcome::MethodErr
    } else {
        match deployment_split(path) {
            Some(p) => if !deployment_allowed(acl.global.allow_deployments@, p.0) {
                AclOutcome::DeploymentErr(p.0)
            } else {
                spec_after_deployment(acl, m, p.1)
            },
            None => spec_after_deployment(acl, m, path),
        }
    }
}

/// The validator `validate` hands back for the model checks, borrowing the
/// selected rule.
pub enum ModelValidator<'a> {
    /// A body rule: checks the `model` field of a JSON body.
    Body(&'a ModelOption),
    /// A path rule: checks the model segment captured from the path.
    Path(&'a PathTemplate, &'a ModelOption),
}

/// The JSON key `model`.
pub open spec fn model_key() -> Seq<u8> {
    seq![0x6Du8, 0x6Fu8, 0x64u8, 0x65u8, 0x6Cu8]
}

/// The model name a JSON body carries: its `model` field, when that field
/// is a string.
pub open spec fn body_model(body: Jv) -> Option<Seq<u8>> {
    match spec_obj_get(body, model_key()) {
        Some(Jv::Str(s)) => Some(s),
        _ => None,
    }
}

impl<'a> ModelValidator<'a> {
    /// Checks the model named in the path. A body rule has nothing to check
    /// here; a path rule checks its captured segment, and treats a path its
    /// template does not capture from as naming no model.
    pub fn validate_path(&self, path: &[u8]) -> (r: Result<(), AclError>)
        ensures
            match self {
                ModelValidator::Body(_) => r is Ok,
                ModelValidator::Path(t, o) => {
                    let mdl = t.spec_capture(path@);
                    if o.spec_admits(mdl) {
                        r is Ok
                    } else if mdl is None {
                        r matches Err(AclError::MissingModel)
                    } else {
                        r matches Err(AclError::ModelNotAllowed(mm)) && mm@ == mdl->0
                    }
                },
            },
    {
        match self {
            ModelValidator::Body(_) => Ok(()),
            ModelValidator::Path(t, o) => {
                match t.capture(path) {
                    Some(m) => o.validate(Some(m.as_slice())),
                    None => o.validate(None),
                }
            },
        }
    }

    /// Checks the model named in a JSON body. A path rule has nothing to
    /// check here; a body rule reads the `model` field, treating a missing
    /// or non-string field as naming no model.
    pub fn validate_body(&self, body: &JsonValue) -> (r: Result<(), AclError>)
        ensures
            match self {
                ModelValidator::Path(_, _) => r is Ok,
                ModelValidator::Body(o) => {
                    let mdl = body_model(body@);
                    if o.spec_admits(mdl) {
                        r is Ok
                    } else if mdl is None {
                        r matches Err(AclError::MissingModel)
                    } else {
                        r matches Err(AclError::ModelNotAllowed(mm)) && mm@ == mdl->0
                    }
                },
            },
    {
        match self {
            ModelValidator::Path(_, _) => Ok(()),
            ModelValidator::Body(o) => {
                let key = model_key_bytes();
                match body.get(key.as_slice()) {
                    Some(v) => match v.as_str_bytes() {
                        Some(sb) => o.validate(Some(sb.as_slice())),
                        None => o.validate(None),
                    },
                    None => o.validate(None),
                }
            },
        }
    }
}

/// The bytes of the JSON key `model`.
pub fn model_key_bytes() -> (r: Vec<u8>)
    ensures
        r@ == model_key(),
{
    let mut out: Vec<u8> = Vec::new();
    out.push(0x6D);
    out.push(0x6F);
    out.push(0x64);
    out.push(0x65);
    out.push(0x6C);
    assert(out@ =~= model_key());
    out
}

fn find_method_flag(ms: &Vec<(Method, bool)>, m: Method) -> (r: Option<bool>)
    ensures
        r == method_flag(ms@, m),
{
    let mut i: usize = 0;
    proof {
        assert(ms@.skip(0) =~= ms@);
    }
    while i < ms.len()
        invariant
            i <= ms@.len(),
            method_flag(ms@, m) == method_flag(ms@.skip(i as int), m),
        decreases ms@.len() - i,
    {
        proof {
            assert(ms@.skip(i as int)[0] == ms@[i as int]);
            assert(ms@.skip(i as int).drop_first() =~= ms@.skip(i as int + 1));
        }
        if ms[i].0 == m {
            return Some(ms[i].1);
        }
        i = i + 1;
    }
    None
}

fn find_deployment(ds: &Vec<Vec<u8>>, id: &[u8]) -> (r: bool)
    ensures
        r == deployment_allowed(ds@, id@),
{
    let mut i: usize = 0;
    while i < ds.len()
        invariant
            i <= ds@.len(),
            forall|j: int| 0 <= j < i ==> (#[trigger] ds@[j])@ != id@,
        decreases ds@.len() - i,
    {
        if crate::json::bytes_eq(ds[i].as_slice(), id) {
            return true;
        }
        i = i + 1;
    }
    false
}

/// Splits off a `/engines/<id>/` prefix, handing back the id and the byte
/// offset where the remainder starts.
#[verifier::loop_isolation(false)]
fn split_deployment(path: &[u8]) -> (r: Option<(Vec<u8>, usize)>)
    ensures
        match deployment_split(path@) {
            Some(p) => r matches Some(q) && q.0@ == p.0 && q.1 <= path@.len() && path@.skip(
                q.1 as int,
            ) == p.1,
            None => r is None,
        },
{
    let pre = engines_prefix_bytes();
    if path.len() < 9 {
        return None;
    }
    let head = crate::json::copy_range(path, 0, 9);
    if !crate::json::bytes_eq(head.as_slice(), pre.as_slice()) {
        proof {
            assert(head@ == path@.take(9));
        }
        return None;
    }
    proof {
        assert(path@.take(9) == engines_prefix());
    }
    // the id runs to the next slash
    let mut e: usize = 9;
    while e < path.len() && path[e] != 0x2F
        invariant
            9 <= e <= path@.len(),
            forall|j: int| 9 <= j < e ==> path@[j] != 0x2F,
        decreases path@.len() - e,
    {
        e = e + 1;
    }
    proof {
        lemma_seg_end_exact(path@, 9, e as int);
    }
    if e <= 9 {
        return None;
    }
    if path.len() - e <= 1 {
        return None;
    }
    // the rest may not hold a newline
    let mut j: usize = e + 1;
    while j < path.len()
        invariant
            e + 1 <= j <= path@.len(),
            forall|x: int| e + 1 <= x < j ==> path@[x] != 0x0A,
        decreases path@.len() - j,
    {
        if path[j] == 0x0A {
            proof {
                assert(path@[j as int] == 0x0A && seg_end(path@, 9) + 1 <= j < path@.len());
            }
            return None;
        }
        j = j + 1;
    }
    let id = crate::json::copy_range(path, 9, e);
    Some((id, e))
}

proof fn lemma_seg_end_exact(s: Seq<u8>, i: int, e: int)
    requires
        0 <= i <= e <= s.len(),
        forall|j: int| i <= j < e ==> s[j] != 0x2F,
        e == s.len() || s[e] == 0x2F,
    ensures
        seg_end(s, i) == e,
    decreases e - i,
{
    if i < e {
        lemma_seg_end_exact(s, i + 1, e);
    }
}

/// The bytes of `/engines/`.
fn engines_prefix_bytes() -> (r: Vec<u8>)
    ensures
        r@ == engines_prefix(),
{
    let mut out: Vec<u8> = Vec::new();
    out.push(0x2F);
    out.push(0x65);
    out.push(0x6E);
    out.push(0x67);
    out.push(0x69);
    out.push(0x6E);
    out.push(0x65);
    out.push(0x73);
    out.push(0x2F);
    assert(out@ =~= engines_prefix());
    out
}

impl ApiAcl {
    /// Every compiled endpoint matcher carries its token lists.
    pub open spec fn wf(&self) -> bool {
        forall|i: int|
            0 <= i < self.endpoint@.len() ==> (#[trigger] self.endpoint@[i]).1.well_formed()
    }

    /// Evaluates the policy for one request line.
    ///
    /// The method gate comes first, then the deployment gate with its prefix
    /// stripping, then the endpoint gate, and last the selection of a model
    /// validator. The call only reads the policy: evaluating it twice over
    /// the same arguments returns the same decision, as the contract pins
    /// the result to a function of the inputs.
    #[verifier::loop_isolation(false)]
    #[verifier::rlimit(60)]
    pub fn validate<'a>(&'a self, method: Method, path: &[u8]) -> (r: Result<
        Option<ModelValidator<'a>>,
        AclError,
    >)
        requires
            self.wf(),
        ensures
            match spec_outcome(*self, method, path@) {
                AclOutcome::MethodErr => r matches Err(AclError::MethodNotAllowed(m2)) && m2
                    == method,
                AclOutcome::DeploymentErr(id) => r matches Err(
                    AclError::DeploymentNotAllowed(d),
                ) && d@ == id,
                AclOutcome::EndpointErr(rem) => r matches Err(
                    AclError::EndpointNotAllowed(m2, e),
                ) && m2 == method && e@ == rem,
                AclOutcome::NoValidator => r matches Ok(v) && v is None,
                AclOutcome::UseBody(o) => r matches Ok(
                    Some(ModelValidator::Body(o2)),
                ) && *o2 == o,
                AclOutcome::UsePath(t, o) => r matches Ok(Some(ModelValidator::Path(t2, o2)))
                    && *t2 == t && *o2 == o,
            },
    {
        // the method gate
        let flag = find_method_flag(&self.global.methods, method);
        let allowed = match flag {
            Some(b) => b,
            None => false,
        };
        if !allowed {
            return Err(AclError::MethodNotAllowed(method));
        }
        // the deployment gate
        let split = split_deployment(path);
        let rem_start: usize = match split {
            Some((id, off)) => {
                if !find_deployment(&self.global.allow_deployments, id.as_slice()) {
                    return Err(AclError::DeploymentNotAllowed(id));
                }
                off
            },
            None => 0,
        };
        let rem = crate::json::copy_range(path, rem_start, path.len());
        proof {
            if deployment_split(path@) is Some {
                assert(rem@ =~= (deployment_split(path@)->0).1);
            } else {
                assert(rem@ =~= path@);
            }
        }
        // the endpoint gate
        let mut matched = false;
        let mut i: usize = 0;
        let mut found = false;
        while i < self.endpoint.len() && !found
            invariant
                self.wf(),
                i <= self.endpoint@.len(),
                !found ==> forall|j: int| 0 <= j < i ==> (#[trigger] self.endpoint@[j]).0 != method,
                !found ==> !matched,
                found ==> (ep_set_for(self.endpoint@, method) matches Some(es) && matched
                    == endpoints_match(es.rules_view(), rem@)),
            decreases self.endpoint@.len() - i, (if found { 0int } else { 1int }),
        {
            if self.endpoint[i].0 == method {
                proof {
                    lemma_ep_set_first(self.endpoint@, method, i as int);
                }
                matched = self.endpoint[i].1.is_match(rem.as_slice());
                found = true;
            } else {
                i = i + 1;
            }
        }
        proof {
            if !found {
                lemma_ep_set_none(self.endpoint@, method, self.endpoint@.len() as int);
            }
        }
        if (self.global.whitelist && !matched) || (!self.global.whitelist && matched) {
            return Err(AclError::EndpointNotAllowed(method, rem));
        }
        // the model-rule selection: body rules first
        let mut bi: usize = 0;
        while bi < self.model_body.len()
            invariant
                bi <= self.model_body@.len(),
                forall|j: int| 0 <= j < bi ==> (#[trigger] self.model_body@[j]).0 != method,
            decreases self.model_body@.len() - bi,
        {
            if self.model_body[bi].0 == method {
                proof {
                    lemma_body_rules_first(self.model_body@, method, bi as int);
                }
                let entries = &self.model_body[bi].1;
                let mut ei: usize = 0;
                while ei < entries.len()
                    invariant
                        ei <= entries@.len(),
                        forall|j: int| 0 <= j < ei ==> (#[trigger] entries@[j]).0@ != rem@,
                    decreases entries@.len() - ei,
                {
                    if crate::json::bytes_eq(entries[ei].0.as_slice(), rem.as_slice()) {
                        proof {
                            lemma_body_option_first(entries@, rem@, ei as int);
                        }
                        return Ok(Some(ModelValidator::Body(&entries[ei].1)));
                    }
                    ei = ei + 1;
                }
                proof {
                    lemma_body_option_none(entries@, rem@, entries@.len() as int);
                }
                break ;
            }
            bi = bi + 1;
        }
        proof {
            if bi == self.model_body@.len() {
                lemma_body_rules_none(self.model_body@, method, self.model_body@.len() as int);
            }
        }
        // then path rules
        let mut pi: usize = 0;
        while pi < self.model_path.len()
            invariant
                pi <= self.model_path@.len(),
                forall|j: int| 0 <= j < pi ==> (#[trigger] self.model_path@[j]).0 != method,
            decreases self.model_path@.len() - pi,
        {
            if self.model_path[pi].0 == method {
                proof {
                    lemma_path_rules_first(self.model_path@, method, pi as int);
                }
                let entries = &self.model_path[pi].1;
                let mut ei: usize = 0;
                while ei < entries.len()
                    invariant
                        ei <= entries@.len(),
                        forall|j: int|
                            0 <= j < ei ==> !(#[trigger] entries@[j]).0.spec_matches(rem@),
                    decreases entries@.len() - ei,
                {
                    if entries[ei].0.matches(rem.as_slice()) {
                        proof {
                            lemma_path_option_first(entries@, rem@, ei as int);
                        }
                        return Ok(
                            Some(ModelValidator::Path(&entries[ei].0, &entries[ei].1)),
                        );
                    }
                    ei = ei + 1;
                }
                proof {
                    lemma_path_option_none(entries@, rem@, entries@.len() as int);
                }
                return Ok(None);
            }
            pi = pi + 1;
        }
        proof {
            lemma_path_rules_none(self.model_path@, method, self.model_path@.len() as int);
        }
        Ok(None)
    }
}

proof fn lemma_ep_set_first(es: Seq<(Method, EndpointSet)>, m: Method, i: int)
    requires
        0 <= i < es.len(),
        es[i].0 == m,
        forall|j: int| 0 <= j < i ==> (#[trigger] es[j]).0 != m,
    ensures
        ep_set_for(es, m) == Some(es[i].1),
    decreases i,
{
    if i > 0 {
        assert(forall|j: int| 0 <= j < i - 1 ==> #[trigger] es.drop_first()[j] == es[j + 1]);
        lemma_ep_set_first(es.drop_first(), m, i - 1);
    }
}

proof fn lemma_ep_set_none(es: Seq<(Method, EndpointSet)>, m: Method, n: int)
    requires
        n == es.len(),
        forall|j: int| 0 <= j < n ==> (#[trigger] es[j]).0 != m,
    ensures
        ep_set_for(es, m) is None,
    decreases n,
{
    if n > 0 {
        assert(forall|j: int| 0 <= j < n - 1 ==> #[trigger] es.drop_first()[j] == es[j + 1]);
        lemma_ep_set_none(es.drop_first(), m, n - 1);
    }
}

proof fn lemma_body_rules_first(es: Seq<(Method, Vec<(Vec<u8>, ModelOption)>)>, m: Method, i: int)
    requires
        0 <= i < es.len(),
        es[i].0 == m,
        forall|j: int| 0 <= j < i ==> (#[trigger] es[j]).0 != m,
    ensures
        body_rules_for(es, m) == Some(es[i].1),
    decreases i,
{
    if i > 0 {
        assert(forall|j: int| 0 <= j < i - 1 ==> #[trigger] es.drop_first()[j] == es[j + 1]);
        lemma_body_rules_first(es.drop_first(), m, i - 1);
    }
}

proof fn lemma_body_rules_none(es: Seq<(Method, Vec<(Vec<u8>, ModelOption)>)>, m: Method, n: int)
    requires
        n == es.len(),
        forall|j: int| 0 <= j < n ==> (#[trigger] es[j]).0 != m,
    ensures
        body_rules_for(es, m) is None,
    decreases n,
{
    if n > 0 {
        assert(forall|j: int| 0 <= j < n - 1 ==> #[trigger] es.drop_first()[j] == es[j + 1]);
        lemma_body_rules_none(es.drop_first(), m, n - 1);
    }
}

proof fn lemma_path_rules_first(
    es: Seq<(Method, Vec<(PathTemplate, ModelOption)>)>,
    m: Method,
    i: int,
)
    requires
        0 <= i < es.len(),
        es[i].0 == m,
        forall|j: int| 0 <= j < i ==> (#[trigger] es[j]).0 != m,
    ensures
        path_rules_for(es, m) == Some(es[i].1),
    decreases i,
{
    if i > 0 {
        assert(forall|j: int| 0 <= j < i - 1 ==> #[trigger] es.drop_first()[j] == es[j + 1]);
        lemma_path_rules_first(es.drop_first(), m, i - 1);
    }
}

proof fn lemma_path_rules_none(
    es: Seq<(Method, Vec<(PathTemplate, ModelOption)>)>,
    m: Method,
    n: int,
)
    requires
        n == es.len(),
        forall|j: int| 0 <= j < n ==> (#[trigger] es[j]).0 != m,
    ensures
        path_rules_for(es, m) is None,
    decreases n,
{
    if n > 0 {
        assert(forall|j: int| 0 <= j < n - 1 ==> #[trigger] es.drop_first()[j] == es[j + 1]);
        lemma_path_rules_none(es.drop_first(), m, n - 1);
    }
}

proof fn lemma_body_option_first(entries: Seq<(Vec<u8>, ModelOption)>, key: Seq<u8>, i: int)
    requires
        0 <= i < entries.len(),
        entries[i].0@ == key,
        forall|j: int| 0 <= j < i ==> (#[trigger] entries[j]).0@ != key,
    ensures
        body_option_for(entries, key) == Some(entries[i].1),
    decreases i,
{
    if i > 0 {
        assert(forall|j: int|
            0 <= j < i - 1 ==> #[trigger] entries.drop_first()[j] == entries[j + 1]);
        lemma_body_option_first(entries.drop_first(), key, i - 1);
    }
}

proof fn lemma_body_option_none(entries: Seq<(Vec<u8>, ModelOption)>, key: Seq<u8>, n: int)
    requires
        n == entries.len(),
        forall|j: int| 0 <= j < n ==> (#[trigger] entries[j]).0@ != key,
    ensures
        body_option_for(entries, key) is None,
    decreases n,
{
    if n > 0 {
        assert(forall|j: int|
            0 <= j < n - 1 ==> #[trigger] entries.drop_first()[j] == entries[j + 1]);
        lemma_body_option_none(entries.drop_first(), key, n - 1);
    }
}

proof fn lemma_path_option_first(entries: Seq<(PathTemplate, ModelOption)>, path: Seq<u8>, i: int)
    requires
        0 <= i < entries.len(),
        entries[i].0.spec_matches(path),
        forall|j: int| 0 <= j < i ==> !(#[trigger] entries[j]).0.spec_matches(path),
    ensures
        path_option_for(entries, path) == Some(entries[i]),
    decreases i,
{
    if i > 0 {
        assert(forall|j: int|
            0 <= j < i - 1 ==> #[trigger] entries.drop_first()[j] == entries[j + 1]);
        lemma_path_option_first(entries.drop_first(), path, i - 1);
    }
}

proof fn lemma_path_option_none(entries: Seq<(PathTemplate, ModelOption)>, path: Seq<u8>, n: int)
    requires
        n == entries.len(),
        forall|j: int| 0 <= j < n ==> !(#[trigger] entries[j]).0.spec_matches(path),
    ensures
        path_option_for(entries, path) is None,
    decreases n,
{
    if n > 0 {
        assert(forall|j: int|
            0 <= j < n - 1 ==> #[trigger] entries.drop_first()[j] == entries[j + 1]);
        lemma_path_option_none(entries.drop_first(), path, n - 1);
    }
}


// ---------------------------------------------------------------------------
// Loading a policy document
// ---------------------------------------------------------------------------

/// One model rule as it stands in the policy document.
pub struct ModelOptionDoc {
    pub path: bool,
    pub allows: Vec<Vec<u8>>,
    pub disallows: Vec<Vec<u8>>,
    pub allow_omitted: bool,
}

/// The parsed policy document: the declarative text after parsing, before
/// compilation.
pub struct AclDocument {
    pub whitelist: bool,
    pub methods: Vec<(Method, bool)>,
    pub allow_deployments: Vec<Vec<u8>>,
    pub endpoint: Vec<(Method, Vec<(Vec<u8>, bool)>)>,
    pub model: Vec<(Method, Vec<(Vec<u8>, ModelOptionDoc)>)>,
}

/// The endpoint keys kept for compilation: those whose switch equals the
/// whitelist switch.
pub open spec fn kept_endpoints(entries: Seq<(Vec<u8>, bool)>, whitelist: bool) -> Seq<Seq<u8>>
    decreases entries.len(),
{
    if entries.len() == 0 {
        Seq::empty()
    } else {
        (if entries[0].1 == whitelist {
            seq![entries[0].0@]
        } else {
            Seq::empty()
        }) + kept_endpoints(entries.drop_first(), whitelist)
    }
}

/// The model rules checked against the body: those without the path flag.
pub open spec fn body_kept(entries: Seq<(Vec<u8>, ModelOptionDoc)>) -> Seq<(Vec<u8>, ModelOptionDoc)>
    decreases entries.len(),
{
    if entries.len() == 0 {
        Seq::empty()
    } else {
        (if !entries[0].1.path {
            seq![entries[0]]
        } else {
            Seq::empty()
        }) + body_kept(entries.drop_first())
    }
}

/// The model rules checked against the path: those with the path flag.
pub open spec fn path_kept(entries: Seq<(Vec<u8>, ModelOptionDoc)>) -> Seq<(Vec<u8>, ModelOptionDoc)>
    decreases entries.len(),
{
    if entries.len() == 0 {
        Seq::empty()
    } else {
        (if entries[0].1.path {
            seq![entries[0]]
        } else {
            Seq::empty()
        }) + path_kept(entries.drop_first())
    }
}

/// The compiled gate carries exactly the document rule's lists.
pub open spec fn option_of_doc(o: ModelOption, d: ModelOptionDoc) -> bool {
    &&& o.allows@ == d.allows.deep_view()
    &&& o.disallows@ == d.disallows.deep_view()
    &&& o.allow_omitted == d.allow_omitted
}

/// The compiled template is the key split at its first `{model}`.
pub open spec fn template_of_key(t: PathTemplate, key: Seq<u8>) -> bool {
    match crate::matcher::first_model_occurrence(key) {
        Some(o) => t.suffix matches Some(sf) && t.prefix@ == key.take(o) && sf@ == key.skip(o + 7),
        None => t.suffix is None && t.prefix@ == key,
    }
}

pub open spec fn body_table_ok(
    out: Seq<(Vec<u8>, ModelOption)>,
    kept: Seq<(Vec<u8>, ModelOptionDoc)>,
) -> bool {
    &&& out.len() == kept.len()
    &&& forall|j: int|
        0 <= j < out.len() ==> (#[trigger] out[j]).0@ == kept[j].0@ && option_of_doc(
            out[j].1,
            kept[j].1,
        )
}

pub open spec fn path_table_ok(
    out: Seq<(PathTemplate, ModelOption)>,
    kept: Seq<(Vec<u8>, ModelOptionDoc)>,
) -> bool {
    &&& out.len() == kept.len()
    &&& forall|j: int|
        0 <= j < out.len() ==> template_of_key((#[trigger] out[j]).0, kept[j].0@) && option_of_doc(
            out[j].1,
            kept[j].1,
        )
}

proof fn lemma_kept_endpoints_take(entries: Seq<(Vec<u8>, bool)>, whitelist: bool, k: int)
    requires
        0 <= k < entries.len(),
    ensures
        kept_endpoints(entries.take(k + 1), whitelist) =~= kept_endpoints(
            entries.take(k),
            whitelist,
        ) + (if entries[k].1 == whitelist {
            seq![entries[k].0@]
        } else {
            Seq::<Seq<u8>>::empty()
        }),
    decreases k,
{
    if k == 0 {
        assert(entries.take(1).drop_first() =~= Seq::<(Vec<u8>, bool)>::empty());
        assert(entries.take(0) =~= Seq::<(Vec<u8>, bool)>::empty());
        assert(entries.take(1)[0] == entries[0]);
    } else {
        assert(entries.take(k + 1)[0] == entries[0]);
        assert(entries.take(k + 1).drop_first() =~= entries.drop_first().take(k));
        assert(entries.take(k)[0] == entries[0]);
        assert(entries.take(k).drop_first() =~= entries.drop_first().take(k - 1));
        lemma_kept_endpoints_take(entries.drop_first(), whitelist, k - 1);
        assert(entries.drop_first()[k - 1] == entries[k]);
    }
}

proof fn lemma_body_kept_take(entries: Seq<(Vec<u8>, ModelOptionDoc)>, k: int)
    requires
        0 <= k < entries.len(),
    ensures
        body_kept(entries.take(k + 1)) =~= body_kept(entries.take(k)) + (if !entries[k].1.path {
            seq![entries[k]]
        } else {
            Seq::<(Vec<u8>, ModelOptionDoc)>::empty()
        }),
    decreases k,
{
    if k == 0 {
        assert(entries.take(1).drop_first() =~= Seq::<(Vec<u8>, ModelOptionDoc)>::empty());
        assert(entries.take(0) =~= Seq::<(Vec<u8>, ModelOptionDoc)>::empty());
        assert(entries.take(1)[0] == entries[0]);
    } else {
        assert(entries.take(k + 1)[0] == entries[0]);
        assert(entries.take(k + 1).drop_first() =~= entries.drop_first().take(k));
        assert(entries.take(k)[0] == entries[0]);
        assert(entries.take(k).drop_first() =~= entries.drop_first().take(k - 1));
        lemma_body_kept_take(entries.drop_first(), k - 1);
        assert(entries.drop_first()[k - 1] == entries[k]);
    }
}

proof fn lemma_path_kept_take(entries: Seq<(Vec<u8>, ModelOptionDoc)>, k: int)
    requires
        0 <= k < entries.len(),
    ensures
        path_kept(entries.take(k + 1)) =~= path_kept(entries.take(k)) + (if entries[k].1.path {
            seq![entries[k]]
        } else {
            Seq::<(Vec<u8>, ModelOptionDoc)>::empty()
        }),
    decreases k,
{
    if k == 0 {
        assert(entries.take(1).drop_first() =~= Seq::<(Vec<u8>, ModelOptionDoc)>::empty());
        assert(entries.take(0) =~= Seq::<(Vec<u8>, ModelOptionDoc)>::empty());
        assert(entries.take(1)[0] == entries[0]);
    } else {
        assert(entries.take(k + 1)[0] == entries[0]);
        assert(entries.take(k + 1).drop_first() =~= entries.drop_first().take(k));
        assert(entries.take(k)[0] == entries[0]);
        assert(entries.take(k).drop_first() =~= entries.drop_first().take(k - 1));
        lemma_path_kept_take(entries.drop_first(), k - 1);
        assert(entries.drop_first()[k - 1] == entries[k]);
    }
}

/// Clones one byte vector, keeping its view.
fn clone_bytes(v: &Vec<u8>) -> (r: Vec<u8>)
    ensures
        r@ == v@,
{
    let c = v.clone();
    proof {
        assert forall|i: int| 0 <= i < v@.len() implies c@[i] == v@[i] by {
            assert(cloned::<u8>(v[i], c[i]));
        }
        assert(c@ =~= v@);
    }
    c
}

/// Clones a list of byte rules, keeping its deep view.
fn clone_rules(v: &Vec<Vec<u8>>) -> (r: Vec<Vec<u8>>)
    ensures
        r.deep_view() == v.deep_view(),
{
    let mut out: Vec<Vec<u8>> = Vec::new();
    let mut i: usize = 0;
    while i < v.len()
        invariant
            i <= v@.len(),
            out@.len() == i,
            forall|j: int| 0 <= j < i ==> (#[trigger] out@[j])@ == v@[j]@,
        decreases v@.len() - i,
    {
        let c = clone_bytes(&v[i]);
        out.push(c);
        i = i + 1;
    }
    proof {
        assert(out.deep_view() =~~= v.deep_view());
    }
    out
}

/// Compiles one document model rule into its gate.
fn compile_option(d: &ModelOptionDoc) -> (r: ModelOption)
    ensures
        option_of_doc(r, *d),
{
    ModelOption {
        allows: wildcards_to_regex(clone_rules(&d.allows)),
        disallows: wildcards_to_regex(clone_rules(&d.disallows)),
        allow_omitted: d.allow_omitted,
    }
}

/// Compiles a policy document: per method, the endpoint rules whose switch
/// agrees with the whitelist switch become one matcher, and the model rules
/// split into body rules (literal keys) and path rules (`{model}`
/// templates), in document order.
impl ApiAcl {
    #[verifier::loop_isolation(false)]
    #[verifier::rlimit(60)]
    pub fn load(doc: AclDocument) -> (r: ApiAcl)
        ensures
            r.wf(),
            r.global.whitelist == doc.whitelist,
            r.global.methods@ == doc.methods@,
            r.global.allow_deployments@ == doc.allow_deployments@,
            r.endpoint@.len() == doc.endpoint@.len(),
            forall|i: int|
                0 <= i < doc.endpoint@.len() ==> (#[trigger] r.endpoint@[i]).0 == doc.endpoint@[i].0
                    && r.endpoint@[i].1.rules_view() == kept_endpoints(
                    doc.endpoint@[i].1@,
                    doc.whitelist,
                ),
            r.model_body@.len() == doc.model@.len(),
            forall|i: int|
                0 <= i < doc.model@.len() ==> (#[trigger] r.model_body@[i]).0 == doc.model@[i].0
                    && body_table_ok(r.model_body@[i].1@, body_kept(doc.model@[i].1@)),
            r.model_path@.len() == doc.model@.len(),
            forall|i: int|
                0 <= i < doc.model@.len() ==> (#[trigger] r.model_path@[i]).0 == doc.model@[i].0
                    && path_table_ok(r.model_path@[i].1@, path_kept(doc.model@[i].1@)),
    {
        let AclDocument { whitelist, methods, allow_deployments, endpoint, model } = doc;
        // the endpoint matchers
        let mut eps: Vec<(Method, EndpointSet)> = Vec::new();
        let mut i: usize = 0;
        while i < endpoint.len()
            invariant
                i <= endpoint@.len(),
                eps@.len() == i,
                forall|x: int|
                    0 <= x < i ==> (#[trigger] eps@[x]).0 == endpoint@[x].0 && eps@[x].1.well_formed()
                        && eps@[x].1.rules_view() == kept_endpoints(endpoint@[x].1@, whitelist),
            decreases endpoint@.len() - i,
        {
            let m = endpoint[i].0;
            let entries = &endpoint[i].1;
            let mut keys: Vec<Vec<u8>> = Vec::new();
            let mut j: usize = 0;
            while j < entries.len()
                invariant
                    j <= entries@.len(),
                    keys.deep_view() == kept_endpoints(entries@.take(j as int), whitelist),
                decreases entries@.len() - j,
            {
                proof {
                    lemma_kept_endpoints_take(entries@, whitelist, j as int);
                }
                if entries[j].1 == whitelist {
                    let kb = clone_bytes(&entries[j].0);
                    let ghost before = keys.deep_view();
                    keys.push(kb);
                    proof {
                        assert(keys.deep_view() =~~= before + seq![entries@[j as int].0@]);
                    }
                }
                j = j + 1;
            }
            proof {
                assert(entries@.take(entries@.len() as int) =~= entries@);
            }
            eps.push((m, endpoints_to_regex(keys)));
            i = i + 1;
        }
        // the model rules
        let mut bodies: Vec<(Method, Vec<(Vec<u8>, ModelOption)>)> = Vec::new();
        let mut paths: Vec<(Method, Vec<(PathTemplate, ModelOption)>)> = Vec::new();
        let mut i2: usize = 0;
        while i2 < model.len()
            invariant
                i2 <= model@.len(),
                bodies@.len() == i2,
                paths@.len() == i2,
                forall|x: int|
                    0 <= x < i2 ==> (#[trigger] bodies@[x]).0 == model@[x].0 && body_table_ok(
                        bodies@[x].1@,
                        body_kept(model@[x].1@),
                    ),
                forall|x: int|
                    0 <= x < i2 ==> (#[trigger] paths@[x]).0 == model@[x].0 && path_table_ok(
                        paths@[x].1@,
                        path_kept(model@[x].1@),
                    ),
            decreases model@.len() - i2,
        {
            let m = model[i2].0;
            let entries = &model[i2].1;
            let mut btab: Vec<(Vec<u8>, ModelOption)> = Vec::new();
            let mut ptab: Vec<(PathTemplate, ModelOption)> = Vec::new();
            let mut j: usize = 0;
            while j < entries.len()
                invariant
                    j <= entries@.len(),
                    body_table_ok(btab@, body_kept(entries@.take(j as int))),
                    path_table_ok(ptab@, path_kept(entries@.take(j as int))),
                decreases entries@.len() - j,
            {
                proof {
                    lemma_body_kept_take(entries@, j as int);
                    lemma_path_kept_take(entries@, j as int);
                }
                let opt = compile_option(&entries[j].1);
                if entries[j].1.path {
                    let key = clone_bytes(&entries[j].0);
                    let t = crate::matcher::compile_path_template(key);
                    ptab.push((t, opt));
                } else {
                    let key = clone_bytes(&entries[j].0);
                    btab.push((key, opt));
                }
                j = j + 1;
            }
            proof {
                assert(entries@.take(entries@.len() as int) =~= entries@);
            }
            bodies.push((m, btab));
            paths.push((m, ptab));
            i2 = i2 + 1;
        }
        ApiAcl {
            global: Global { whitelist, methods, allow_deployments },
            endpoint: eps,
            model_body: bodies,
            model_path: paths,
        }
    }
}


} // verus!
