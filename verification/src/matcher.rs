//! Compiled matchers for the two rule languages of the access policy.
//!
//! Wildcard rules (`gpt-*`) gate model names: `*` matches any run of bytes,
//! every other byte stands for itself, and a rule matches a whole name only.
//! Endpoint rules (`/v1/{name}/foo`) gate paths: a `/{name}` placeholder
//! matches `/` followed by one nonempty slash-free segment, every other byte
//! stands for itself. A matcher built from several rules matches when at
//! least one of its rules does.

use vstd::prelude::*;

verus! {

// ---------------------------------------------------------------------------
// Wildcards
// ---------------------------------------------------------------------------

/// One wildcard rule matches a whole string.
pub open spec fn glob_match(w: Seq<u8>, s: Seq<u8>) -> bool
    decreases w.len(), s.len(),
{
    if w.len() == 0 {
        s.len() == 0
    } else if w[0] == 0x2A {
        glob_match(w.drop_first(), s) || (s.len() > 0 && glob_match(w, s.drop_first()))
    } else {
        s.len() > 0 && w[0] == s[0] && glob_match(w.drop_first(), s.drop_first())
    }
}

/// A set of wildcard rules matches when one of them does.
pub open spec fn wildcards_match(ws: Seq<Seq<u8>>, s: Seq<u8>) -> bool {
    exists|i: int| 0 <= i < ws.len() && glob_match(ws[i], s)
}

/// The rule that is exactly `*` matches every string.
pub proof fn lemma_star_matches_all(s: Seq<u8>)
    ensures
        glob_match(seq![0x2Au8], s),
    decreases s.len(),
{
    let w = seq![0x2Au8];
    assert(w[0] == 0x2A);
    assert(w.drop_first() =~= Seq::<u8>::empty());
    if s.len() > 0 {
        lemma_star_matches_all(s.drop_first());
        assert(glob_match(w, s.drop_first()));
    } else {
        assert(glob_match(w.drop_first(), s));
    }
}

/// A rule set holding `*` matches every string: half of the wildcard law;
/// the other half is `is_match`'s own contract.
pub proof fn lemma_star_rule_matches_every_string(ws: Seq<Seq<u8>>, i: int, s: Seq<u8>)
    requires
        0 <= i < ws.len(),
        ws[i] == seq![0x2Au8],
    ensures
        wildcards_match(ws, s),
{
    lemma_star_matches_all(s);
}

fn glob_match_at(w: &[u8], s: &[u8], wi: usize, si: usize) -> (r: bool)
    requires
        wi <= w@.len(),
        si <= s@.len(),
    ensures
        r == glob_match(w@.skip(wi as int), s@.skip(si as int)),
    decreases w@.len() - wi, s@.len() - si,
{
    proof {
        if wi < w@.len() {
            assert(w@.skip(wi as int)[0] == w@[wi as int]);
            assert(w@.skip(wi as int).drop_first() =~= w@.skip(wi as int + 1));
        }
        if si < s@.len() {
            assert(s@.skip(si as int)[0] == s@[si as int]);
            assert(s@.skip(si as int).drop_first() =~= s@.skip(si as int + 1));
        }
    }
    if wi >= w.len() {
        si >= s.len()
    } else if w[wi] == 0x2A {
        if glob_match_at(w, s, wi + 1, si) {
            true
        } else if si < s.len() {
            glob_match_at(w, s, wi, si + 1)
        } else {
            false
        }
    } else {
        si < s.len() && w[wi] == s[si] && glob_match_at(w, s, wi + 1, si + 1)
    }
}

/// A compiled set of wildcard rules.
pub struct WildcardSet {
    rules: Vec<Vec<u8>>,
}

impl View for WildcardSet {
    type V = Seq<Seq<u8>>;

    closed spec fn view(&self) -> Seq<Seq<u8>> {
        self.rules.deep_view()
    }
}

impl WildcardSet {
    /// Whether some rule of the set matches the whole of `s`.
    pub fn is_match(&self, s: &[u8]) -> (r: bool)
        ensures
            r == wildcards_match(self@, s@),
    {
        let mut i: usize = 0;
        while i < self.rules.len()
            invariant
                i <= self.rules@.len(),
                self@.len() == self.rules@.len(),
                forall|j: int| 0 <= j < self@.len() ==> self@[j] == (#[trigger] self.rules@[j])@,
                forall|j: int| 0 <= j < i ==> !glob_match(self@[j], s@),
            decreases self.rules@.len() - i,
        {
            let w = &self.rules[i];
            proof {
                assert(w@.skip(0) =~= w@);
                assert(s@.skip(0) =~= s@);
            }
            if glob_match_at(w.as_slice(), s, 0, 0) {
                return true;
            }
            i = i + 1;
        }
        false
    }

    /// The rules, for inspection.
    pub fn rules(&self) -> (r: &Vec<Vec<u8>>)
        ensures
            r.deep_view() == self@,
    {
        &self.rules
    }
}

/// Compiles wildcard rules into a matcher. The byte rules are taken as they
/// are: `*` is the only meta character of this language, so there is nothing
/// to reject and compilation cannot fail.
pub fn wildcards_to_regex(wildcards: Vec<Vec<u8>>) -> (r: WildcardSet)
    ensures
        r@ == wildcards.deep_view(),
{
    WildcardSet { rules: wildcards }
}

// ---------------------------------------------------------------------------
// Endpoints
// ---------------------------------------------------------------------------

/// One token of a compiled endpoint rule.
#[derive(PartialEq, Eq, Structural)]
pub enum EpTok {
    /// A literal byte.
    Lit(u8),
    /// A `/{name}` placeholder: `/` plus one nonempty slash-free segment.
    Param,
}

/// A byte that may appear in a placeholder name.
pub open spec fn is_name_byte(b: u8) -> bool {
    b != 0x2F && b != 0x7B && b != 0x7D
}

/// First position at or after `i` whose byte may not appear in a name.
pub open spec fn name_end(s: Seq<u8>, i: int) -> int
    decreases s.len() - i,
{
    if 0 <= i < s.len() && is_name_byte(s[i]) {
        name_end(s, i + 1)
    } else {
        i
    }
}

/// Whether a `/{name}` placeholder starts at position `i` of the rule.
pub open spec fn param_at(r: Seq<u8>, i: int) -> bool {
    &&& 0 <= i
    &&& i + 1 < r.len()
    &&& r[i] == 0x2F
    &&& r[i + 1] == 0x7B
    &&& name_end(r, i + 2) > i + 2
    &&& name_end(r, i + 2) < r.len()
    &&& r[name_end(r, i + 2)] == 0x7D
}

/// Length of the placeholder starting at `i`.
pub open spec fn param_len(r: Seq<u8>, i: int) -> int {
    name_end(r, i + 2) + 1 - i
}

/// The token list of an endpoint rule.
pub open spec fn ep_tokens(r: Seq<u8>) -> Seq<EpTok>
    decreases r.len(),
{
    if r.len() == 0 {
        Seq::empty()
    } else if param_at(r, 0) {
        seq![EpTok::Param] + ep_tokens(r.skip(param_len(r, 0)))
    } else {
        seq![EpTok::Lit(r[0])] + ep_tokens(r.drop_first())
    }
}

/// Token-list matching against a path.
pub open spec fn toks_match(toks: Seq<EpTok>, s: Seq<u8>) -> bool
    decreases toks.len(), s.len(), 1int,
{
    if toks.len() == 0 {
        s.len() == 0
    } else {
        match toks[0] {
            EpTok::Lit(b) => s.len() > 0 && s[0] == b && toks_match(
                toks.drop_first(),
                s.drop_first(),
            ),
            EpTok::Param => s.len() > 0 && s[0] == 0x2F && seg_match(
                toks.drop_first(),
                s.drop_first(),
            ),
        }
    }
}

/// After a placeholder's `/`: consume one or more slash-free bytes, then
/// match the remaining tokens.
pub open spec fn seg_match(toks: Seq<EpTok>, s: Seq<u8>) -> bool
    decreases toks.len(), s.len(), 0int,
{
    s.len() > 0 && s[0] != 0x2F && (toks_match(toks, s.drop_first()) || seg_match(
        toks,
        s.drop_first(),
    ))
}

/// One endpoint rule matches a whole path.
pub open spec fn endpoint_rule_match(rule: Seq<u8>, path: Seq<u8>) -> bool {
    toks_match(ep_tokens(rule), path)
}

/// A set of endpoint rules matches when one of them does.
pub open spec fn endpoints_match(rules: Seq<Seq<u8>>, path: Seq<u8>) -> bool {
    exists|i: int| 0 <= i < rules.len() && endpoint_rule_match(rules[i], path)
}

fn toks_match_at(toks: &Vec<EpTok>, s: &[u8], ti: usize, si: usize) -> (r: bool)
    requires
        ti <= toks@.len(),
        si <= s@.len(),
    ensures
        r == toks_match(toks@.skip(ti as int), s@.skip(si as int)),
    decreases toks@.len() - ti, s@.len() - si, 1int,
{
    proof {
        if ti < toks@.len() {
            assert(toks@.skip(ti as int)[0] == toks@[ti as int]);
            assert(toks@.skip(ti as int).drop_first() =~= toks@.skip(ti as int + 1));
        }
        if si < s@.len() {
            assert(s@.skip(si as int)[0] == s@[si as int]);
            assert(s@.skip(si as int).drop_first() =~= s@.skip(si as int + 1));
        }
    }
    if ti >= toks.len() {
        si >= s.len()
    } else {
        match toks[ti] {
            EpTok::Lit(b) => si < s.len() && s[si] == b && toks_match_at(toks, s, ti + 1, si + 1),
            EpTok::Param => si < s.len() && s[si] == 0x2F && seg_match_at(toks, s, ti + 1, si + 1),
        }
    }
}

fn seg_match_at(toks: &Vec<EpTok>, s: &[u8], ti: usize, si: usize) -> (r: bool)
    requires
        ti <= toks@.len(),
        si <= s@.len(),
    ensures
        r == seg_match(toks@.skip(ti as int), s@.skip(si as int)),
    decreases toks@.len() - ti, s@.len() - si, 0int,
{
    proof {
        if si < s@.len() {
            assert(s@.skip(si as int)[0] == s@[si as int]);
            assert(s@.skip(si as int).drop_first() =~= s@.skip(si as int + 1));
        }
    }
    if si < s.len() && s[si] != 0x2F {
        if toks_match_at(toks, s, ti, si + 1) {
            true
        } else {
            seg_match_at(toks, s, ti, si + 1)
        }
    } else {
        false
    }
}

fn scan_name_end(r: &[u8], i: usize) -> (e: usize)
    requires
        i <= r@.len(),
    ensures
        e == name_end(r@, i as int),
        i <= e <= r@.len(),
    decreases r@.len() - i,
{
    if i < r.len() && r[i] != 0x2F && r[i] != 0x7B && r[i] != 0x7D {
        scan_name_end(r, i + 1)
    } else {
        i
    }
}

/// Tokenizes one endpoint rule, turning each `/{name}` into a placeholder.
#[verifier::loop_isolation(false)]
fn tokenize_rule(r: &[u8]) -> (toks: Vec<EpTok>)
    ensures
        toks@ == ep_tokens(r@),
{
    let mut toks: Vec<EpTok> = Vec::new();
    let mut i: usize = 0;
    let ghost whole = r@;
    proof {
        assert(r@.skip(0) =~= r@);
        assert(ep_tokens(r@) =~= Seq::<EpTok>::empty() + ep_tokens(r@));
    }
    while i < r.len()
        invariant
            i <= r@.len(),
            ep_tokens(r@) =~= toks@ + ep_tokens(r@.skip(i as int)),
        decreases r@.len() - i,
    {
        proof {
            assert(r@.skip(i as int)[0] == r@[i as int]);
            assert(r@.skip(i as int).drop_first() =~= r@.skip(i as int + 1));
        }
        let sub_len = r.len() - i;
        let mut took_param = false;
        if sub_len >= 4 && r[i] == 0x2F && r[i + 1] == 0x7B {
            let ne = scan_name_end(r, i + 2);
            proof {
                lemma_name_end_shift(r@, i as int);
            }
            if ne > i + 2 && ne < r.len() && r[ne] == 0x7D {
                proof {
                    let sub = r@.skip(i as int);
                    assert(sub[0] == r@[i as int]);
                    assert(sub[1] == r@[i as int + 1]);
                    assert(name_end(sub, 2) == ne - i);
                    assert(sub[ne - i] == r@[ne as int]);
                    assert(param_at(r@.skip(i as int), 0));
                    assert(param_len(r@.skip(i as int), 0) == ne + 1 - i);
                    assert(r@.skip(i as int).skip(ne + 1 - i) =~= r@.skip(ne as int + 1));
                    assert(ep_tokens(r@.skip(i as int)) == seq![EpTok::Param] + ep_tokens(
                        r@.skip(ne as int + 1),
                    ));
                }
                toks.push(EpTok::Param);
                i = ne + 1;
                took_param = true;
                assert(ep_tokens(whole) =~= toks@ + ep_tokens(r@.skip(i as int)));
            }
        }
        if !took_param {
            proof {
                lemma_name_end_shift(r@, i as int);
                let sub = r@.skip(i as int);
                assert(sub[0] == r@[i as int]);
                if sub.len() > 1 {
                    assert(sub[1] == r@[i as int + 1]);
                }
                if 2 <= sub.len() {
                    lemma_name_end_bounds(sub, 2);
                    lemma_name_end_bounds(r@, i + 2);
                    assert(name_end(sub, 2) == name_end(r@, i + 2) - i);
                    if name_end(sub, 2) < sub.len() {
                        assert(sub[name_end(sub, 2)] == r@[name_end(r@, i as int + 2)]);
                    }
                }
                assert(!param_at(r@.skip(i as int), 0));
                assert(ep_tokens(r@.skip(i as int)) == seq![EpTok::Lit(r@[i as int])] + ep_tokens(
                    r@.skip(i as int + 1),
                ));
            }
            toks.push(EpTok::Lit(r[i]));
            i = i + 1;
            assert(ep_tokens(whole) =~= toks@ + ep_tokens(r@.skip(i as int)));
        }
    }
    proof {
        assert(r@.skip(r@.len() as int) =~= Seq::<u8>::empty());
        assert(ep_tokens(Seq::<u8>::empty()) =~= Seq::<EpTok>::empty());
        assert(toks@ =~= ep_tokens(r@));
    }
    toks
}

proof fn lemma_name_end_bounds(s: Seq<u8>, i: int)
    requires
        0 <= i <= s.len(),
    ensures
        i <= name_end(s, i) <= s.len(),
    decreases s.len() - i,
{
    if i < s.len() && is_name_byte(s[i]) {
        lemma_name_end_bounds(s, i + 1);
    }
}

/// Relates placeholder detection on a suffix to the whole rule.
proof fn lemma_name_end_shift(r: Seq<u8>, i: int)
    requires
        0 <= i <= r.len(),
    ensures
        forall|y: int|
            0 <= y <= r.len() - i ==> #[trigger] name_end(r.skip(i), y) == name_end(r, i + y) - i,
{
    assert forall|y: int|
        0 <= y <= r.len() - i implies #[trigger] name_end(r.skip(i), y) == name_end(r, i + y)
        - i by {
        lemma_name_end_shift_one(r, i, i + y);
    }
}

proof fn lemma_name_end_shift_one(r: Seq<u8>, i: int, x: int)
    requires
        0 <= i <= x <= r.len(),
    ensures
        name_end(r.skip(i), x - i) == name_end(r, x) - i,
    decreases r.len() - x,
{
    assert(r.skip(i).len() == r.len() - i);
    if x < r.len() {
        assert(r.skip(i)[x - i] == r[x]);
        if is_name_byte(r[x]) {
            lemma_name_end_shift_one(r, i, x + 1);
        }
    }
}

/// A compiled set of endpoint rules.
pub struct EndpointSet {
    rules: Vec<Vec<u8>>,
    toks: Vec<Vec<EpTok>>,
}

impl EndpointSet {
    /// The raw rules this matcher was compiled from.
    pub closed spec fn rules_view(&self) -> Seq<Seq<u8>> {
        self.rules.deep_view()
    }

    /// The matcher really carries its rules' token lists.
    pub closed spec fn well_formed(&self) -> bool {
        &&& self.toks@.len() == self.rules@.len()
        &&& forall|i: int|
            0 <= i < self.rules@.len() ==> (#[trigger] self.toks@[i])@ == ep_tokens(
                self.rules@[i]@,
            )
    }

    /// Whether some rule of the set matches the whole of `path`.
    pub fn is_match(&self, path: &[u8]) -> (r: bool)
        requires
            self.well_formed(),
        ensures
            r == endpoints_match(self.rules_view(), path@),
    {
        let mut i: usize = 0;
        while i < self.toks.len()
            invariant
                self.well_formed(),
                i <= self.toks@.len(),
                forall|j: int|
                    0 <= j < i ==> !endpoint_rule_match((#[trigger] self.rules@[j])@, path@),
            decreases self.toks@.len() - i,
        {
            proof {
                assert(self.toks@[i as int]@.skip(0) =~= self.toks@[i as int]@);
                assert(path@.skip(0) =~= path@);
            }
            if toks_match_at(&self.toks[i], path, 0, 0) {
                proof {
                    assert(self.rules_view()[i as int] == self.rules@[i as int]@);
                    assert(endpoint_rule_match(self.rules_view()[i as int], path@));
                }
                return true;
            }
            i = i + 1;
        }
        proof {
            assert forall|j: int| 0 <= j < self.rules_view().len() implies !endpoint_rule_match(
                #[trigger] self.rules_view()[j],
                path@,
            ) by {
                assert(self.rules_view()[j] == self.rules@[j]@);
            }
        }
        false
    }
}

/// Compiles endpoint rules into a matcher, rewriting each `/{name}` segment
/// into a placeholder that matches one path segment.
pub fn endpoints_to_regex(endpoints: Vec<Vec<u8>>) -> (r: EndpointSet)
    ensures
        r.well_formed(),
        r.rules_view() == endpoints.deep_view(),
{
    let mut toks: Vec<Vec<EpTok>> = Vec::new();
    let mut i: usize = 0;
    while i < endpoints.len()
        invariant
            i <= endpoints@.len(),
            toks@.len() == i,
            forall|j: int|
                0 <= j < i ==> (#[trigger] toks@[j])@ == ep_tokens(endpoints@[j]@),
        decreases endpoints@.len() - i,
    {
        let tk = tokenize_rule(endpoints[i].as_slice());
        toks.push(tk);
        i = i + 1;
    }
    EndpointSet { rules: endpoints, toks }
}

// ---------------------------------------------------------------------------
// Path templates with a model capture
// ---------------------------------------------------------------------------

/// A model-rule key with at most one `{model}` placeholder, split around it.
/// A key with no placeholder has `suffix == None` and matches only itself,
/// capturing nothing.
pub struct PathTemplate {
    pub prefix: Vec<u8>,
    pub suffix: Option<Vec<u8>>,
}

/// What the template captures from a path: the nonempty slash-free segment
/// standing where `{model}` stood, if the path matches the template.
pub open spec fn template_capture(pre: Seq<u8>, suf: Seq<u8>, path: Seq<u8>) -> Option<Seq<u8>> {
    if path.len() >= pre.len() + suf.len() + 1 && path.take(pre.len() as int) == pre && path.skip(
        path.len() - suf.len(),
    ) == suf && (forall|i: int|
        pre.len() <= i < path.len() - suf.len() ==> path[i] != 0x2F) {
        Some(path.subrange(pre.len() as int, path.len() - suf.len()))
    } else {
        None
    }
}

impl PathTemplate {
    pub open spec fn spec_capture(&self, path: Seq<u8>) -> Option<Seq<u8>> {
        match self.suffix {
            Some(suf) => template_capture(self.prefix@, suf@, path),
            None => None,
        }
    }

    /// Whether the template applies to the path at all: a capture for a
    /// placeholder template, plain equality for a literal one.
    pub open spec fn spec_matches(&self, path: Seq<u8>) -> bool {
        match self.suffix {
            Some(_) => self.spec_capture(path) is Some,
            None => self.prefix@ == path,
        }
    }

    /// Extracts the captured model segment.
    #[verifier::loop_isolation(false)]
    pub fn capture(&self, path: &[u8]) -> (r: Option<Vec<u8>>)
        ensures
            match r {
                Some(c) => self.spec_capture(path@) == Some(c@),
                None => self.spec_capture(path@) is None,
            },
    {
        let suf = match &self.suffix {
            None => {
                return None;
            },
            Some(s) => s,
        };
        let np = self.prefix.len();
        let ns = suf.len();
        if path.len() <= np {
            proof {
                assert(self.spec_capture(path@) is None);
            }
            return None;
        }
        if path.len() - np <= ns {
            proof {
                assert(self.spec_capture(path@) is None);
            }
            return None;
        }
        let mid_end = path.len() - ns;
        // the prefix
        let mut i: usize = 0;
        while i < np
            invariant
                i <= np == self.prefix@.len(),
                np + ns + 1 <= path@.len(),
                forall|j: int| 0 <= j < i ==> path@[j] == self.prefix@[j],
            decreases np - i,
        {
            if path[i] != self.prefix[i] {
                proof {
                    assert(path@.take(np as int)[i as int] != self.prefix@[i as int]);
                    assert(path@.take(np as int) != self.prefix@);
                }
                return None;
            }
            i = i + 1;
        }
        proof {
            assert(path@.take(np as int) =~= self.prefix@);
        }
        // the suffix
        let mut j: usize = 0;
        while j < ns
            invariant
                j <= ns == suf@.len(),
                np + ns + 1 <= path@.len(),
                mid_end == path@.len() - ns,
                forall|x: int| 0 <= x < j ==> path@[mid_end + x] == suf@[x],
            decreases ns - j,
        {
            if path[mid_end + j] != suf[j] {
                proof {
                    assert(path@.skip(mid_end as int)[j as int] != suf@[j as int]);
                    assert(path@.skip(mid_end as int) != suf@);
                    assert(mid_end as int == path@.len() - suf@.len());
                }
                return None;
            }
            j = j + 1;
        }
        proof {
            assert(path@.skip(mid_end as int) =~= suf@);
        }
        // the captured segment: nonempty, no slash
        let mut k: usize = np;
        while k < mid_end
            invariant
                np <= k <= mid_end <= path@.len(),
                forall|x: int| np <= x < k ==> path@[x] != 0x2F,
            decreases mid_end - k,
        {
            if path[k] == 0x2F {
                return None;
            }
            k = k + 1;
        }
        let cap = crate::json::copy_range(path, np, mid_end);
        proof {
            assert(self.spec_capture(path@) == Some(path@.subrange(np as int, mid_end as int)));
        }
        Some(cap)
    }

    /// Whether the template applies to the path.
    pub fn matches(&self, path: &[u8]) -> (r: bool)
        ensures
            r == self.spec_matches(path@),
    {
        match &self.suffix {
            Some(_) => self.capture(path).is_some(),
            None => crate::json::bytes_eq(self.prefix.as_slice(), path),
        }
    }
}

/// Splits a model-rule key at its first `{model}` occurrence.
///
/// The spelled-out placeholder is seven bytes: `{model}`.
#[verifier::loop_isolation(false)]
#[verifier::rlimit(60)]
pub fn compile_path_template(key: Vec<u8>) -> (r: PathTemplate)
    ensures
        ({
            let occ = first_model_occurrence(key@);
            match occ {
                Some(o) => r.suffix matches Some(s) && r.prefix@ == key@.take(o) && s@ == key@.skip(
                    o + 7,
                ),
                None => r.suffix is None && r.prefix@ == key@,
            }
        }),
{
    let n = key.len();
    let mut i: usize = 0;
    while i < n && n - i >= 7
        invariant
            i <= n == key@.len(),
            forall|x: int| 0 <= x < i ==> !model_at(key@, x),
        decreases n - i,
    {
        if key[i] == 0x7B && key[i + 1] == 0x6D && key[i + 2] == 0x6F && key[i + 3] == 0x64 && key[i
            + 4] == 0x65 && key[i + 5] == 0x6C && key[i + 6] == 0x7D {
            proof {
                assert(model_at(key@, i as int));
                lemma_first_model(key@, i as int);
            }
            let pre = crate::json::copy_range(key.as_slice(), 0, i);
            let suf = crate::json::copy_range(key.as_slice(), i + 7, n);
            proof {
                assert(pre@ =~= key@.take(i as int));
                assert(suf@ =~= key@.skip(i as int + 7));
            }
            return PathTemplate { prefix: pre, suffix: Some(suf) };
        }
        i = i + 1;
    }
    proof {
        assert forall|x: int| 0 <= x < key@.len() implies !model_at(key@, x) by {
            if x + 7 <= key@.len() {
                assert(x < i);
            }
        }
        assert(first_model_occurrence(key@) is None) by {
            lemma_no_model(key@);
        }
    }
    PathTemplate { prefix: key, suffix: None }
}

/// The literal bytes `{model}` stand at position `i` of `s`.
pub open spec fn model_at(s: Seq<u8>, i: int) -> bool {
    &&& 0 <= i
    &&& i + 7 <= s.len()
    &&& s[i] == 0x7B && s[i + 1] == 0x6D && s[i + 2] == 0x6F && s[i + 3] == 0x64 && s[i + 4]
        == 0x65 && s[i + 5] == 0x6C && s[i + 6] == 0x7D
}

/// The first position where `{model}` stands, if any.
pub open spec fn first_model_occurrence(s: Seq<u8>) -> Option<int> {
    if exists|i: int| model_at(s, i) {
        Some(choose|i: int| model_at(s, i) && forall|j: int| 0 <= j < i ==> !model_at(s, j))
    } else {
        None
    }
}

proof fn lemma_first_model(s: Seq<u8>, i: int)
    requires
        model_at(s, i),
        forall|j: int| 0 <= j < i ==> !model_at(s, j),
    ensures
        first_model_occurrence(s) == Some(i),
{
    assert(exists|x: int| model_at(s, x));
    let c = choose|x: int| model_at(s, x) && forall|j: int| 0 <= j < x ==> !model_at(s, j);
    assert(model_at(s, i) && (forall|j: int| 0 <= j < i ==> !model_at(s, j)));
    if c < i {
        assert(!model_at(s, c));
    }
    if i < c {
        assert(!model_at(s, i));
    }
}

proof fn lemma_no_model(s: Seq<u8>)
    requires
        forall|x: int| 0 <= x < s.len() ==> !model_at(s, x),
    ensures
        first_model_occurrence(s) is None,
{
    if exists|i: int| model_at(s, i) {
        let i = choose|i: int| model_at(s, i);
        assert(0 <= i < s.len());
    }
}

} // verus!
