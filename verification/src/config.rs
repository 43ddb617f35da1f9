//! The typed configuration model: the language-inheritance tree and the
//! scanning targets, the decoder from evaluated configuration values,
//! and the resolution of a configuration script's items (one level of
//! local variable aliasing around the default export).

use vstd::prelude::*;

use crate::error::{Error, ErrorV};
use crate::expr_to_value::{
    eval_expr, expr_to_value, expr_view, fields_views, lemma_values_views_index, value_view,
    values_views, ConfigExpr, ExprV, Value, ValueV,
};

verus! {

// ------------------------------------------------------------------
// The model
// ------------------------------------------------------------------

/// One node of the language-inheritance tree; the root's name is the
/// default language.
pub struct LanguageNode {
    /// The language code.
    pub name: String,
    /// The languages inheriting from this one, in order.
    pub children: Vec<LanguageNode>,
}

/// The view of a language node.
pub struct LangV {
    pub name: Seq<char>,
    pub children: Seq<LangV>,
}

/// The view of a language node.
pub open spec fn lang_view(n: LanguageNode) -> LangV
    decreases n,
{
    LangV { name: n.name@, children: langs_views(n.children@) }
}

/// The views of a sequence of language nodes.
pub open spec fn langs_views(s: Seq<LanguageNode>) -> Seq<LangV>
    decreases s,
{
    if s.len() == 0 {
        Seq::empty()
    } else {
        langs_views(s.drop_last()).push(lang_view(s.last()))
    }
}

/// `langs_views` maps positions one for one.
pub proof fn lemma_langs_views_index(s: Seq<LanguageNode>)
    ensures
        langs_views(s).len() == s.len(),
        forall|i: int| 0 <= i < s.len() ==> #[trigger] langs_views(s)[i] == lang_view(s[i]),
    decreases s.len(),
{
    if s.len() > 0 {
        lemma_langs_views_index(s.drop_last());
        assert forall|i: int| 0 <= i < s.len() implies #[trigger] langs_views(s)[i] == lang_view(
            s[i],
        ) by {
            if i < s.len() - 1 {
                assert(langs_views(s)[i] == langs_views(s.drop_last())[i]);
                assert(s.drop_last()[i] == s[i]);
            }
        }
    }
}

impl View for LanguageNode {
    type V = LangV;

    open spec fn view(&self) -> LangV {
        lang_view(*self)
    }
}

/// One scanning policy: where to look, what to skip, where the output
/// goes, and which identifiers mark a translation call.
pub struct Target {
    /// Path patterns selecting workspaces.
    pub includes: Vec<String>,
    /// Path patterns excluded from the walk.
    pub excludes: Vec<String>,
    /// The output subdirectory created inside every matched workspace.
    pub output: String,
    /// The identifiers recognized as translation markers.
    pub fn_names: Vec<String>,
}

/// The view of a target.
pub struct TargetV {
    pub includes: Seq<Seq<char>>,
    pub excludes: Seq<Seq<char>>,
    pub output: Seq<char>,
    pub fn_names: Seq<Seq<char>>,
}

impl View for Target {
    type V = TargetV;

    open spec fn view(&self) -> TargetV {
        TargetV {
            includes: self.includes.deep_view(),
            excludes: self.excludes.deep_view(),
            output: self.output@,
            fn_names: self.fn_names.deep_view(),
        }
    }
}

/// The whole configuration: the language tree and the targets, applied
/// in order.
pub struct Config {
    /// The language-inheritance tree.
    pub languages: LanguageNode,
    /// The scanning targets, in configuration order.
    pub targets: Vec<Target>,
}

/// The view of a configuration.
pub struct ConfigV {
    pub languages: LangV,
    pub targets: Seq<TargetV>,
}

impl View for Config {
    type V = ConfigV;

    open spec fn view(&self) -> ConfigV {
        ConfigV {
            languages: self.languages@,
            targets: self.targets@.map_values(|t: Target| t@),
        }
    }
}

// ------------------------------------------------------------------
// Defaults
// ------------------------------------------------------------------

/// The default output subdirectory name.
pub open spec fn spec_default_output() -> Seq<char> {
    "_t"@
}

/// The default output subdirectory name.
pub fn default_output() -> (r: String)
    ensures
        r@ == spec_default_output(),
{
    String::from_str("_t")
}

/// The default marker-function names.
pub open spec fn spec_default_fn_names() -> Seq<Seq<char>> {
    seq!["t"@]
}

/// The default marker-function names.
pub fn default_fn_names() -> (r: Vec<String>)
    ensures
        r.deep_view() == spec_default_fn_names(),
{
    let mut r: Vec<String> = Vec::new();
    r.push(String::from_str("t"));
    proof {
        assert(r.deep_view() =~= spec_default_fn_names());
    }
    r
}

/// The default configuration: the default language `en` with no
/// children, and one target scanning `src`, excluding dependency and
/// hidden directories, with the default output and marker names.
pub open spec fn spec_default_config() -> ConfigV {
    ConfigV {
        languages: LangV { name: "en"@, children: Seq::empty() },
        targets: seq![
            TargetV {
                includes: seq!["src"@],
                excludes: seq!["node_modules"@, ".*"@],
                output: spec_default_output(),
                fn_names: spec_default_fn_names(),
            }
        ],
    }
}

/// The default target list alone.
pub fn default_targets() -> (r: Vec<Target>)
    ensures
        r@.map_values(|t: Target| t@) == spec_default_config().targets,
{
    let mut includes: Vec<String> = Vec::new();
    includes.push(String::from_str("src"));
    let mut excludes: Vec<String> = Vec::new();
    excludes.push(String::from_str("node_modules"));
    excludes.push(String::from_str(".*"));
    let t = Target { includes, excludes, output: default_output(), fn_names: default_fn_names() };
    let mut r: Vec<Target> = Vec::new();
    proof {
        assert(t.includes.deep_view() =~= seq!["src"@]);
        assert(t.excludes.deep_view() =~= seq!["node_modules"@, ".*"@]);
    }
    r.push(t);
    proof {
        assert(r@.map_values(|t: Target| t@) =~= spec_default_config().targets);
    }
    r
}

impl Default for Config {
    /// The configuration used when none is given.
    fn default() -> (r: Config)
        ensures
            r@ == spec_default_config(),
    {
        let r = Config {
            languages: LanguageNode { name: String::from_str("en"), children: Vec::new() },
            targets: default_targets(),
        };
        proof {
            assert(langs_views(r.languages.children@) =~= Seq::<LangV>::empty());
            assert(r@.languages == spec_default_config().languages);
        }
        r
    }
}

// ------------------------------------------------------------------
// The language list
// ------------------------------------------------------------------

/// All language names of a tree, in pre-order.
pub open spec fn spec_languages(n: LangV) -> Seq<Seq<char>>
    decreases n,
{
    seq![n.name] + spec_languages_list(n.children)
}

/// All language names of a forest, in order.
pub open spec fn spec_languages_list(cs: Seq<LangV>) -> Seq<Seq<char>>
    decreases cs,
{
    if cs.len() == 0 {
        Seq::empty()
    } else {
        spec_languages_list(cs.drop_last()) + spec_languages(cs.last())
    }
}

impl LanguageNode {
    /// All language names of the tree, in pre-order.
    pub fn collect_languages(&self) -> (r: Vec<String>)
        ensures
            r.deep_view() == spec_languages(self@),
    {
        let mut result: Vec<String> = Vec::new();
        self.collect_recursive(&mut result);
        proof {
            assert(Seq::<Seq<char>>::empty() + spec_languages(self@) =~= spec_languages(self@));
        }
        result
    }

    /// Append this node's name and its descendants' names, in pre-order.
    #[verifier::loop_isolation(false)]
    pub fn collect_recursive(&self, result: &mut Vec<String>)
        ensures
            final(result).deep_view() == old(result).deep_view() + spec_languages(self@),
        decreases *self,
    {
        let ghost r0 = result.deep_view();
        let ghost cs = langs_views(self.children@);
        proof {
            lemma_langs_views_index(self.children@);
        }
        result.push(self.name.clone());
        proof {
            assert(result.deep_view() =~= r0 + seq![self.name@]);
            assert(cs.take(0) =~= Seq::<LangV>::empty());
            assert(result.deep_view() =~= r0 + seq![self.name@] + spec_languages_list(cs.take(0)));
        }
        let n = self.children.len();
        let mut i: usize = 0;
        while i < n
            invariant
                i <= n,
                result.deep_view() == r0 + seq![self@.name] + spec_languages_list(
                    cs.take(i as int),
                ),
            decreases n - i,
        {
            proof {
                assert(decreases_to!(*self => self.children));
                assert(decreases_to!(self.children => self.children@));
                assert(decreases_to!(self.children@ => self.children@[i as int]));
            }
            self.children[i].collect_recursive(result);
            proof {
                assert(cs.take(i + 1 as int).drop_last() =~= cs.take(i as int));
                assert(cs.take(i + 1 as int).last() == lang_view(self.children@[i as int]));
                assert(result.deep_view() =~= r0 + seq![self@.name] + spec_languages_list(
                    cs.take(i + 1 as int),
                ));
            }
            i += 1;
        }
        proof {
            assert(cs.take(n as int) =~= cs);
            assert(spec_languages_list(cs.take(n as int)) == spec_languages_list(cs));
            assert(result.deep_view() =~= r0 + spec_languages(self@));
        }
    }
}

// ------------------------------------------------------------------
// Decoding an evaluated value into the model
// ------------------------------------------------------------------

/// The value of the first field named `k`, if any.
pub open spec fn obj_lookup(m: Seq<(Seq<char>, ValueV)>, k: Seq<char>) -> Option<ValueV>
    decreases m.len(),
{
    if m.len() == 0 {
        None
    } else if m[0].0 == k {
        Some(m[0].1)
    } else {
        obj_lookup(m.drop_first(), k)
    }
}

/// The first match determines `obj_lookup`.
pub proof fn lemma_obj_lookup_at(m: Seq<(Seq<char>, ValueV)>, k: Seq<char>, i: int)
    requires
        0 <= i < m.len(),
        m[i].0 == k,
        forall|j: int| 0 <= j < i ==> (#[trigger] m[j]).0 != k,
    ensures
        obj_lookup(m, k) == Some(m[i].1),
    decreases i,
{
    if i > 0 {
        let d = m.drop_first();
        assert forall|j: int| 0 <= j < i - 1 implies (#[trigger] d[j]).0 != k by {
            assert(m[j + 1].0 != k);
        }
        lemma_obj_lookup_at(d, k, i - 1);
    }
}

/// Without a match, `obj_lookup` finds nothing.
pub proof fn lemma_obj_lookup_none(m: Seq<(Seq<char>, ValueV)>, k: Seq<char>)
    requires
        forall|j: int| 0 <= j < m.len() ==> (#[trigger] m[j]).0 != k,
    ensures
        obj_lookup(m, k) is None,
    decreases m.len(),
{
    if m.len() > 0 {
        let d = m.drop_first();
        assert forall|j: int| 0 <= j < d.len() implies (#[trigger] d[j]).0 != k by {
            assert(m[j + 1].0 != k);
        }
        lemma_obj_lookup_none(d, k);
    }
}

/// The first field named like `key`, if any.
fn obj_get<'a>(fields: &'a Vec<(String, Value)>, key: &String) -> (r: Option<&'a Value>)
    ensures
        (match r {
            Some(u) => obj_lookup(fields_views(fields@), key@) == Some(value_view(*u)) && exists|
                i: int,
            |
                0 <= i < fields@.len() && (#[trigger] fields@[i]).1 == *u,
            None => obj_lookup(fields_views(fields@), key@) is None,
        }),
{
    let ghost fv = fields_views(fields@);
    proof {
        crate::expr_to_value::lemma_fields_views_index(fields@);
    }
    let n = fields.len();
    let mut i: usize = 0;
    while i < n
        invariant
            n == fields@.len(),
            i <= n,
            fv == fields_views(fields@),
            fv.len() == n,
            forall|j: int| 0 <= j < n ==> #[trigger] fv[j] == (fields@[j].0@, value_view(
                fields@[j].1,
            )),
            forall|j: int| 0 <= j < i ==> (#[trigger] fv[j]).0 != key@,
        decreases n - i,
    {
        if fields[i].0 == *key {
            proof {
                lemma_obj_lookup_at(fv, key@, i as int);
                assert(fields@[i as int].1 == fields@[i as int].1);
            }
            return Some(&fields[i].1);
        }
        proof {
            assert(fv[i as int].0 != key@);
        }
        i += 1;
    }
    proof {
        lemma_obj_lookup_none(fv, key@);
    }
    None
}

/// A decoded string field.
pub open spec fn spec_decode_string(v: ValueV) -> Result<Seq<char>, ErrorV> {
    match v {
        ValueV::Str(s) => Ok(s),
        _ => Err(ErrorV::Decode { message: "expected a string"@ }),
    }
}

/// A decoded list of strings.
pub open spec fn spec_decode_strings(items: Seq<ValueV>) -> Result<Seq<Seq<char>>, ErrorV>
    decreases items,
{
    if items.len() == 0 {
        Ok(Seq::empty())
    } else {
        match spec_decode_strings(items.drop_last()) {
            Ok(ss) => match spec_decode_string(items.last()) {
                Ok(s) => Ok(ss.push(s)),
                Err(e) => Err(e),
            },
            Err(e) => Err(e),
        }
    }
}

/// A decoded string-array field.
pub open spec fn spec_decode_string_array(v: ValueV) -> Result<Seq<Seq<char>>, ErrorV> {
    match v {
        ValueV::Array(items) => spec_decode_strings(items),
        _ => Err(ErrorV::Decode { message: "expected an array of strings"@ }),
    }
}

/// A decoded target: `includes` and `excludes` are required, `output`
/// and `fnNames` fall back to their defaults.
pub open spec fn spec_decode_target(v: ValueV) -> Result<TargetV, ErrorV> {
    match v {
        ValueV::Object(fields) => match obj_lookup(fields, "includes"@) {
            None => Err(ErrorV::Decode { message: "missing field `includes`"@ }),
            Some(iv) => match spec_decode_string_array(iv) {
                Err(e) => Err(e),
                Ok(includes) => match obj_lookup(fields, "excludes"@) {
                    None => Err(ErrorV::Decode { message: "missing field `excludes`"@ }),
                    Some(ev) => match spec_decode_string_array(ev) {
                        Err(e) => Err(e),
                        Ok(excludes) => match (match obj_lookup(fields, "output"@) {
                            None => Ok(spec_default_output()),
                            Some(ov) => spec_decode_string(ov),
                        }) {
                            Err(e) => Err(e),
                            Ok(output) => match (match obj_lookup(fields, "fnNames"@) {
                                None => Ok(spec_default_fn_names()),
                                Some(fv) => spec_decode_string_array(fv),
                            }) {
                                Err(e) => Err(e),
                                Ok(fn_names) => Ok(
                                    TargetV { includes, excludes, output, fn_names },
                                ),
                            },
                        },
                    },
                },
            },
        },
        _ => Err(ErrorV::Decode { message: "expected an object"@ }),
    }
}

/// A decoded list of targets.
pub open spec fn spec_decode_targets(items: Seq<ValueV>) -> Result<Seq<TargetV>, ErrorV>
    decreases items,
{
    if items.len() == 0 {
        Ok(Seq::empty())
    } else {
        match spec_decode_targets(items.drop_last()) {
            Ok(ts) => match spec_decode_target(items.last()) {
                Ok(t) => Ok(ts.push(t)),
                Err(e) => Err(e),
            },
            Err(e) => Err(e),
        }
    }
}

/// A decoded language node: `name` is required, `children` falls back
/// to the empty list.
pub open spec fn spec_decode_lang(v: ValueV) -> Result<LangV, ErrorV>
    decreases v,
{
    match v {
        ValueV::Object(fields) => match obj_lookup(fields, "name"@) {
            None => Err(ErrorV::Decode { message: "missing field `name`"@ }),
            Some(nv) => match spec_decode_string(nv) {
                Err(e) => Err(e),
                Ok(name) => match obj_lookup(fields, "children"@) {
                    None => Ok(LangV { name, children: Seq::empty() }),
                    Some(cv) => match cv {
                        ValueV::Array(items) => if decreases_to!(v => items) {
                            match spec_decode_langs(items) {
                                Ok(cs) => Ok(LangV { name, children: cs }),
                                Err(e) => Err(e),
                            }
                        } else {
                            Err(ErrorV::Decode { message: "expected an array of languages"@ })
                        },
                        _ => Err(ErrorV::Decode { message: "expected an array of languages"@ }),
                    },
                },
            },
        },
        _ => Err(ErrorV::Decode { message: "expected an object"@ }),
    }
}

/// A decoded list of language nodes.
pub open spec fn spec_decode_langs(items: Seq<ValueV>) -> Result<Seq<LangV>, ErrorV>
    decreases items,
{
    if items.len() == 0 {
        Ok(Seq::empty())
    } else {
        match spec_decode_langs(items.drop_last()) {
            Ok(cs) => match spec_decode_lang(items.last()) {
                Ok(c) => Ok(cs.push(c)),
                Err(e) => Err(e),
            },
            Err(e) => Err(e),
        }
    }
}

/// A decoded configuration: `languages` is required; missing `targets`
/// fall back to the default target list.
pub open spec fn spec_decode_config(v: ValueV) -> Result<ConfigV, ErrorV> {
    match v {
        ValueV::Object(fields) => match obj_lookup(fields, "languages"@) {
            None => Err(ErrorV::Decode { message: "missing field `languages`"@ }),
            Some(lv) => match spec_decode_lang(lv) {
                Err(e) => Err(e),
                Ok(languages) => match obj_lookup(fields, "targets"@) {
                    None => Ok(ConfigV { languages, targets: spec_default_config().targets }),
                    Some(tv) => match tv {
                        ValueV::Array(items) => match spec_decode_targets(items) {
                            Ok(ts) => Ok(ConfigV { languages, targets: ts }),
                            Err(e) => Err(e),
                        },
                        _ => Err(ErrorV::Decode { message: "expected an array of targets"@ }),
                    },
                },
            },
        },
        _ => Err(ErrorV::Decode { message: "expected an object"@ }),
    }
}

/// An error in a prefix of a string list is the error of the whole
/// list.
pub proof fn lemma_decode_strings_err(items: Seq<ValueV>, i: int)
    requires
        0 <= i <= items.len(),
        spec_decode_strings(items.take(i)) is Err,
    ensures
        spec_decode_strings(items) == spec_decode_strings(items.take(i)),
    decreases items.len() - i,
{
    if i < items.len() {
        assert(items.take(i + 1).drop_last() =~= items.take(i));
        lemma_decode_strings_err(items, i + 1);
    } else {
        assert(items.take(i) =~= items);
    }
}

/// An error in a prefix of a target list is the error of the whole
/// list.
pub proof fn lemma_decode_targets_err(items: Seq<ValueV>, i: int)
    requires
        0 <= i <= items.len(),
        spec_decode_targets(items.take(i)) is Err,
    ensures
        spec_decode_targets(items) == spec_decode_targets(items.take(i)),
    decreases items.len() - i,
{
    if i < items.len() {
        assert(items.take(i + 1).drop_last() =~= items.take(i));
        lemma_decode_targets_err(items, i + 1);
    } else {
        assert(items.take(i) =~= items);
    }
}

/// An error in a prefix of a language list is the error of the whole
/// list.
pub proof fn lemma_decode_langs_err(items: Seq<ValueV>, i: int)
    requires
        0 <= i <= items.len(),
        spec_decode_langs(items.take(i)) is Err,
    ensures
        spec_decode_langs(items) == spec_decode_langs(items.take(i)),
    decreases items.len() - i,
{
    if i < items.len() {
        assert(items.take(i + 1).drop_last() =~= items.take(i));
        lemma_decode_langs_err(items, i + 1);
    } else {
        assert(items.take(i) =~= items);
    }
}

/// Decode one string value.
fn decode_string(v: &Value) -> (r: Result<String, Error>)
    ensures
        (match (r, spec_decode_string(value_view(*v))) {
            (Ok(s), Ok(sv)) => s@ == sv,
            (Err(e), Err(se)) => e@ == se,
            _ => false,
        }),
{
    match v {
        Value::Str(s) => Ok(s.clone()),
        _ => Err(Error::Decode { message: String::from_str("expected a string") }),
    }
}

/// Decode a string-array value.
#[verifier::loop_isolation(false)]
fn decode_string_vec(v: &Value) -> (r: Result<Vec<String>, Error>)
    ensures
        (match (r, spec_decode_string_array(value_view(*v))) {
            (Ok(ss), Ok(sv)) => ss.deep_view() == sv,
            (Err(e), Err(se)) => e@ == se,
            _ => false,
        }),
{
    match v {
        Value::Array(items) => {
            let ghost iv = values_views(items@);
            proof {
                lemma_values_views_index(items@);
            }
            let mut out: Vec<String> = Vec::new();
            let n = items.len();
            let mut i: usize = 0;
            proof {
                assert(iv.take(0) =~= Seq::<ValueV>::empty());
                assert(out.deep_view() =~= Seq::<Seq<char>>::empty());
            }
            while i < n
                invariant
                    i <= n,
                    spec_decode_strings(iv.take(i as int)) == Ok::<_, ErrorV>(out.deep_view()),
                decreases n - i,
            {
                proof {
                    assert(iv.take(i + 1 as int).drop_last() =~= iv.take(i as int));
                    assert(iv.take(i + 1 as int).last() == value_view(items@[i as int]));
                }
                match decode_string(&items[i]) {
                    Ok(s) => {
                        let ghost o0 = out.deep_view();
                        out.push(s);
                        proof {
                            assert(out.deep_view() =~= o0.push(out@.last()@));
                        }
                    },
                    Err(e) => {
                        proof {
                            lemma_decode_strings_err(iv, i + 1 as int);
                            assert(iv.take(n as int) =~= iv);
                        }
                        return Err(e);
                    },
                }
                i += 1;
            }
            proof {
                assert(iv.take(n as int) =~= iv);
            }
            Ok(out)
        },
        _ => Err(Error::Decode { message: String::from_str("expected an array of strings") }),
    }
}

/// Decode one target value.
fn decode_target(v: &Value) -> (r: Result<Target, Error>)
    ensures
        (match (r, spec_decode_target(value_view(*v))) {
            (Ok(t), Ok(tv)) => t@ == tv,
            (Err(e), Err(se)) => e@ == se,
            _ => false,
        }),
{
    match v {
        Value::Object(fields) => {
            let includes = match obj_get(fields, &String::from_str("includes")) {
                None => {
                    return Err(
                        Error::Decode { message: String::from_str("missing field `includes`") },
                    );
                },
                Some(iv) => match decode_string_vec(iv) {
                    Ok(ss) => ss,
                    Err(e) => {
                        return Err(e);
                    },
                },
            };
            let excludes = match obj_get(fields, &String::from_str("excludes")) {
                None => {
                    return Err(
                        Error::Decode { message: String::from_str("missing field `excludes`") },
                    );
                },
                Some(ev) => match decode_string_vec(ev) {
                    Ok(ss) => ss,
                    Err(e) => {
                        return Err(e);
                    },
                },
            };
            let output = match obj_get(fields, &String::from_str("output")) {
                None => default_output(),
                Some(ov) => match decode_string(ov) {
                    Ok(s) => s,
                    Err(e) => {
                        return Err(e);
                    },
                },
            };
            let fn_names = match obj_get(fields, &String::from_str("fnNames")) {
                None => default_fn_names(),
                Some(fv) => match decode_string_vec(fv) {
                    Ok(ss) => ss,
                    Err(e) => {
                        return Err(e);
                    },
                },
            };
            Ok(Target { includes, excludes, output, fn_names })
        },
        _ => Err(Error::Decode { message: String::from_str("expected an object") }),
    }
}

/// Decode one language node, recursively.
#[verifier::loop_isolation(false)]
fn decode_language(v: &Value) -> (r: Result<LanguageNode, Error>)
    ensures
        (match (r, spec_decode_lang(value_view(*v))) {
            (Ok(n), Ok(nv)) => n@ == nv,
            (Err(e), Err(se)) => e@ == se,
            _ => false,
        }),
    decreases v,
{
    match v {
        Value::Object(fields) => {
            let name = match obj_get(fields, &String::from_str("name")) {
                None => {
                    return Err(Error::Decode { message: String::from_str("missing field `name`") });
                },
                Some(nv) => match decode_string(nv) {
                    Ok(s) => s,
                    Err(e) => {
                        return Err(e);
                    },
                },
            };
            match obj_get(fields, &String::from_str("children")) {
                None => {
                    let n = LanguageNode { name, children: Vec::new() };
                    proof {
                        assert(langs_views(n.children@) =~= Seq::<LangV>::empty());
                    }
                    Ok(n)
                },
                Some(cv) => {
                    proof {
                        let i = choose|i: int|
                            0 <= i < fields@.len() && (#[trigger] fields@[i]).1 == *cv;
                        assert(decreases_to!(*v => *fields));
                        assert(decreases_to!(*fields => fields@));
                        assert(decreases_to!(fields@ => fields@[i]));
                        assert(decreases_to!(fields@[i] => fields@[i].1));
                    }
                    match cv {
                        Value::Array(items) => {
                            proof {
                                assert(decreases_to!(*cv => *items));
                                assert(decreases_to!(*items => items@));
                                crate::expr_to_value::lemma_fields_views_index(fields@);
                                let i = choose|i: int|
                                    0 <= i < fields@.len() && (#[trigger] fields@[i]).1 == *cv;
                                let fv = fields_views(fields@);
                                assert(fv[i] == (fields@[i].0@, value_view(fields@[i].1)));
                                assert(fv[i].1 == value_view(*cv));
                                assert(value_view(*cv) == ValueV::Array(values_views(items@)));
                                assert(decreases_to!(value_view(*v) => fv));
                                assert(decreases_to!(fv => fv[i]));
                                assert(decreases_to!(fv[i] => fv[i].1));
                                assert(decreases_to!(fv[i].1 => values_views(items@)));
                            }
                            let ghost iv = values_views(items@);
                            proof {
                                lemma_values_views_index(items@);
                            }
                            let mut children: Vec<LanguageNode> = Vec::new();
                            let n = items.len();
                            let mut i: usize = 0;
                            proof {
                                assert(iv.take(0) =~= Seq::<ValueV>::empty());
                                assert(langs_views(children@) =~= Seq::<LangV>::empty());
                            }
                            while i < n
                                invariant
                                    i <= n,
                                    spec_decode_langs(iv.take(i as int)) == Ok::<_, ErrorV>(
                                        langs_views(children@),
                                    ),
                                decreases n - i,
                            {
                                proof {
                                    assert(iv.take(i + 1 as int).drop_last() =~= iv.take(i as int));
                                    assert(iv.take(i + 1 as int).last() == value_view(
                                        items@[i as int],
                                    ));
                                    assert(decreases_to!(items@ => items@[i as int]));
                                }
                                match decode_language(&items[i]) {
                                    Ok(c) => {
                                        let ghost c0 = children@;
                                        children.push(c);
                                        proof {
                                            assert(children@.drop_last() =~= c0);
                                            assert(langs_views(children@) == langs_views(c0).push(
                                                lang_view(children@.last()),
                                            ));
                                        }
                                    },
                                    Err(e) => {
                                        proof {
                                            lemma_decode_langs_err(iv, i + 1 as int);
                                            assert(iv.take(n as int) =~= iv);
                                        }
                                        return Err(e);
                                    },
                                }
                                i += 1;
                            }
                            proof {
                                assert(iv.take(n as int) =~= iv);
                            }
                            Ok(LanguageNode { name, children })
                        },
                        _ => Err(
                            Error::Decode {
                                message: String::from_str("expected an array of languages"),
                            },
                        ),
                    }
                },
            }
        },
        _ => Err(Error::Decode { message: String::from_str("expected an object") }),
    }
}

/// Decode a whole evaluated configuration value into the typed model.
#[verifier::loop_isolation(false)]
fn config_from_value(v: &Value) -> (r: Result<Config, Error>)
    ensures
        (match (r, spec_decode_config(value_view(*v))) {
            (Ok(c), Ok(cv)) => c@ == cv,
            (Err(e), Err(se)) => e@ == se,
            _ => false,
        }),
{
    match v {
        Value::Object(fields) => {
            let languages = match obj_get(fields, &String::from_str("languages")) {
                None => {
                    return Err(
                        Error::Decode { message: String::from_str("missing field `languages`") },
                    );
                },
                Some(lv) => match decode_language(lv) {
                    Ok(n) => n,
                    Err(e) => {
                        return Err(e);
                    },
                },
            };
            match obj_get(fields, &String::from_str("targets")) {
                None => {
                    let c = Config { languages, targets: default_targets() };
                    Ok(c)
                },
                Some(tv) => match tv {
                    Value::Array(items) => {
                        let ghost iv = values_views(items@);
                        proof {
                            lemma_values_views_index(items@);
                        }
                        let mut targets: Vec<Target> = Vec::new();
                        let n = items.len();
                        let mut i: usize = 0;
                        proof {
                            assert(iv.take(0) =~= Seq::<ValueV>::empty());
                            assert(targets@.map_values(|t: Target| t@) =~= Seq::<TargetV>::empty());
                        }
                        while i < n
                            invariant
                                i <= n,
                                n == items@.len(),
                                iv == values_views(items@),
                                iv.len() == n,
                                forall|j: int|
                                    0 <= j < n ==> #[trigger] iv[j] == value_view(items@[j]),
                                spec_decode_targets(iv.take(i as int)) == Ok::<_, ErrorV>(
                                    targets@.map_values(|t: Target| t@),
                                ),
                            decreases n - i,
                        {
                            proof {
                                assert(iv.take(i + 1 as int).drop_last() =~= iv.take(i as int));
                                assert(iv.take(i + 1 as int).last() == value_view(
                                    items@[i as int],
                                ));
                            }
                            match decode_target(&items[i]) {
                                Ok(t) => {
                                    let ghost t0 = targets@;
                                    targets.push(t);
                                    proof {
                                        assert(targets@.map_values(|t: Target| t@) =~= t0.map_values(
                                            |t: Target| t@,
                                        ).push(targets@.last()@));
                                    }
                                },
                                Err(e) => {
                                    proof {
                                        lemma_decode_targets_err(iv, i + 1 as int);
                                        assert(iv.take(n as int) =~= iv);
                                    }
                                    return Err(e);
                                },
                            }
                            i += 1;
                        }
                        proof {
                            assert(iv.take(n as int) =~= iv);
                        }
                        Ok(Config { languages, targets })
                    },
                    _ => Err(
                        Error::Decode { message: String::from_str("expected an array of targets") },
                    ),
                },
            }
        },
        _ => Err(Error::Decode { message: String::from_str("expected an object") }),
    }
}

// ------------------------------------------------------------------
// Resolving a configuration script's items
// ------------------------------------------------------------------

/// One variable declarator: its bound name (when the pattern is a bare
/// identifier) and its initializer (when it has one).
pub struct Declarator {
    pub name: Option<String>,
    pub init: Option<ConfigExpr>,
}

/// A top-level item of the configuration script, stripped down to what
/// resolution reads.
pub enum ScriptItem {
    /// A variable declaration with its declarators, in order.
    VarDecl(Vec<Declarator>),
    /// `export default` of an expression.
    ExportDefault(ConfigExpr),
    /// Anything else.
    Other,
}

/// The view of a declarator.
pub struct DeclV {
    pub name: Option<Seq<char>>,
    pub init: Option<ExprV>,
}

/// The view of a script item.
pub enum ScriptItemV {
    VarDecl(Seq<DeclV>),
    ExportDefault(ExprV),
    Other,
}

/// The view of a declarator.
pub open spec fn decl_view(d: Declarator) -> DeclV
    decreases d,
{
    DeclV {
        name: match d.name {
            Some(s) => Some(s@),
            None => None,
        },
        init: match d.init {
            Some(e) => Some(expr_view(e)),
            None => None,
        },
    }
}

/// The views of a declarator sequence.
pub open spec fn decls_views(s: Seq<Declarator>) -> Seq<DeclV>
    decreases s,
{
    if s.len() == 0 {
        Seq::empty()
    } else {
        decls_views(s.drop_last()).push(decl_view(s.last()))
    }
}

/// `decls_views` maps positions one for one.
pub proof fn lemma_decls_views_index(s: Seq<Declarator>)
    ensures
        decls_views(s).len() == s.len(),
        forall|i: int| 0 <= i < s.len() ==> #[trigger] decls_views(s)[i] == decl_view(s[i]),
    decreases s.len(),
{
    if s.len() > 0 {
        lemma_decls_views_index(s.drop_last());
        assert forall|i: int| 0 <= i < s.len() implies #[trigger] decls_views(s)[i] == decl_view(
            s[i],
        ) by {
            if i < s.len() - 1 {
                assert(decls_views(s)[i] == decls_views(s.drop_last())[i]);
                assert(s.drop_last()[i] == s[i]);
            }
        }
    }
}

/// The view of a script item.
pub open spec fn item_view(it: ScriptItem) -> ScriptItemV
    decreases it,
{
    match it {
        ScriptItem::VarDecl(decls) => ScriptItemV::VarDecl(decls_views(decls@)),
        ScriptItem::ExportDefault(e) => ScriptItemV::ExportDefault(expr_view(e)),
        ScriptItem::Other => ScriptItemV::Other,
    }
}

/// The views of a script-item sequence.
pub open spec fn items_views(s: Seq<ScriptItem>) -> Seq<ScriptItemV>
    decreases s,
{
    if s.len() == 0 {
        Seq::empty()
    } else {
        items_views(s.drop_last()).push(item_view(s.last()))
    }
}

/// `items_views` maps positions one for one.
pub proof fn lemma_items_views_index(s: Seq<ScriptItem>)
    ensures
        items_views(s).len() == s.len(),
        forall|i: int| 0 <= i < s.len() ==> #[trigger] items_views(s)[i] == item_view(s[i]),
    decreases s.len(),
{
    if s.len() > 0 {
        lemma_items_views_index(s.drop_last());
        assert forall|i: int| 0 <= i < s.len() implies #[trigger] items_views(s)[i] == item_view(
            s[i],
        ) by {
            if i < s.len() - 1 {
                assert(items_views(s)[i] == items_views(s.drop_last())[i]);
                assert(s.drop_last()[i] == s[i]);
            }
        }
    }
}

/// The initializer bound to `name` by the declarators, the last
/// binding winning.
pub open spec fn lookup_decls(decls: Seq<DeclV>, name: Seq<char>) -> Option<ExprV>
    decreases decls.len(),
{
    if decls.len() == 0 {
        None
    } else if decls.last().name == Some(name) && decls.last().init is Some {
        decls.last().init
    } else {
        lookup_decls(decls.drop_last(), name)
    }
}

/// The initializer the whole script binds to `name`: later declarations
/// shadow earlier ones, exactly as a single pass filling a map would
/// leave it.
pub open spec fn lookup_var(items: Seq<ScriptItemV>, name: Seq<char>) -> Option<ExprV>
    decreases items.len(),
{
    if items.len() == 0 {
        None
    } else {
        match items.last() {
            ScriptItemV::VarDecl(decls) => match lookup_decls(decls, name) {
                Some(e) => Some(e),
                None => lookup_var(items.drop_last(), name),
            },
            _ => lookup_var(items.drop_last(), name),
        }
    }
}

/// The first default-exported expression of the script, if any.
pub open spec fn first_export(items: Seq<ScriptItemV>) -> Option<ExprV>
    decreases items.len(),
{
    if items.len() == 0 {
        None
    } else {
        match items[0] {
            ScriptItemV::ExportDefault(e) => Some(e),
            _ => first_export(items.drop_first()),
        }
    }
}

/// Evaluate an expression and decode the result into the model.
pub open spec fn spec_eval_decode(e: ExprV) -> Result<ConfigV, ErrorV> {
    match eval_expr(e) {
        Ok(v) => spec_decode_config(v),
        Err(er) => Err(er),
    }
}

/// What loading a configuration script yields: the first default export
/// is taken; a bare identifier is resolved through the script's own
/// variable declarations (one hop, later declarations shadowing
/// earlier ones); the resolved expression is evaluated and decoded.
pub open spec fn spec_config_from_items(items: Seq<ScriptItemV>) -> Result<ConfigV, ErrorV> {
    match first_export(items) {
        None => Err(ErrorV::NoExportedExpression),
        Some(e) => match e {
            ExprV::Ident(name) => match lookup_var(items, name) {
                None => Err(ErrorV::MissingIdentifier { name }),
                Some(e2) => spec_eval_decode(e2),
            },
            _ => spec_eval_decode(e),
        },
    }
}

/// Evaluate and decode one expression.
fn eval_and_decode(e: &ConfigExpr) -> (r: Result<Config, Error>)
    ensures
        (match (r, spec_eval_decode(e@)) {
            (Ok(c), Ok(cv)) => c@ == cv,
            (Err(er), Err(se)) => er@ == se,
            _ => false,
        }),
{
    match expr_to_value(e) {
        Ok(v) => config_from_value(&v),
        Err(er) => Err(er),
    }
}

/// The expression the script binds to `name`, if any.
#[verifier::loop_isolation(false)]
fn find_var<'a>(items: &'a Vec<ScriptItem>, name: &String) -> (r: Option<&'a ConfigExpr>)
    ensures
        (match r {
            Some(e) => lookup_var(items_views(items@), name@) == Some(expr_view(*e)),
            None => lookup_var(items_views(items@), name@) is None,
        }),
{
    let ghost itv = items_views(items@);
    proof {
        lemma_items_views_index(items@);
    }
    let mut best: Option<&'a ConfigExpr> = None;
    let n = items.len();
    let mut i: usize = 0;
    proof {
        assert(itv.take(0) =~= Seq::<ScriptItemV>::empty());
    }
    while i < n
        invariant
            i <= n,
            (match best {
                Some(e) => lookup_var(itv.take(i as int), name@) == Some(expr_view(*e)),
                None => lookup_var(itv.take(i as int), name@) is None,
            }),
        decreases n - i,
    {
        proof {
            assert(itv.take(i + 1 as int).drop_last() =~= itv.take(i as int));
            assert(itv.take(i + 1 as int).last() == item_view(items@[i as int]));
        }
        match &items[i] {
            ScriptItem::VarDecl(decls) => {
                let ghost dv = decls_views(decls@);
                proof {
                    lemma_decls_views_index(decls@);
                    assert(dv.take(0) =~= Seq::<DeclV>::empty());
                }
                let mut here: Option<&'a ConfigExpr> = None;
                let dn = decls.len();
                let mut j: usize = 0;
                while j < dn
                    invariant
                        j <= dn,
                        i < n,
                        (match here {
                            Some(e) => lookup_decls(dv.take(j as int), name@) == Some(
                                expr_view(*e),
                            ),
                            None => lookup_decls(dv.take(j as int), name@) is None,
                        }),
                    decreases dn - j,
                {
                    proof {
                        assert(dv.take(j + 1 as int).drop_last() =~= dv.take(j as int));
                        assert(dv.take(j + 1 as int).last() == decl_view(decls@[j as int]));
                    }
                    let d = &decls[j];
                    match (&d.name, &d.init) {
                        (Some(dname), Some(init)) => {
                            if *dname == *name {
                                here = Some(init);
                            }
                        },
                        _ => {},
                    }
                    j += 1;
                }
                proof {
                    assert(dv.take(dn as int) =~= dv);
                }
                match here {
                    Some(e) => {
                        best = Some(e);
                    },
                    None => {},
                }
            },
            _ => {},
        }
        i += 1;
    }
    proof {
        assert(itv.take(n as int) =~= itv);
    }
    best
}

/// Load the configuration from the items of a parsed configuration
/// script: find the default export, resolve one level of aliasing,
/// evaluate it, and decode the typed model.
#[verifier::loop_isolation(false)]
pub fn config_from_script_items(items: &Vec<ScriptItem>) -> (r: Result<Config, Error>)
    ensures
        (match (r, spec_config_from_items(items_views(items@))) {
            (Ok(c), Ok(cv)) => c@ == cv,
            (Err(e), Err(se)) => e@ == se,
            _ => false,
        }),
{
    let ghost itv = items_views(items@);
    proof {
        lemma_items_views_index(items@);
    }
    let n = items.len();
    let mut i: usize = 0;
    proof {
        assert(itv.skip(0) =~= itv);
    }
    while i < n
        invariant
            i <= n,
            first_export(itv) == first_export(itv.skip(i as int)),
        decreases n - i,
    {
        proof {
            assert(itv.skip(i as int).drop_first() =~= itv.skip(i + 1 as int));
            assert(itv.skip(i as int)[0] == itv[i as int]);
        }
        match &items[i] {
            ScriptItem::ExportDefault(e) => {
                proof {
                    assert(first_export(itv) == Some(expr_view(*e)));
                }
                match e {
                    ConfigExpr::Ident(ident_name) => {
                        match find_var(items, ident_name) {
                            Some(e2) => {
                                return eval_and_decode(e2);
                            },
                            None => {
                                return Err(
                                    Error::MissingIdentifier { name: ident_name.clone() },
                                );
                            },
                        }
                    },
                    _ => {
                        return eval_and_decode(e);
                    },
                }
            },
            _ => {},
        }
        i += 1;
    }
    proof {
        assert(itv.skip(n as int) =~= Seq::<ScriptItemV>::empty());
    }
    Err(Error::NoExportedExpression)
}

} // verus!
