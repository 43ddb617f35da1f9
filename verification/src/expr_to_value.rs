//! The static configuration evaluator: a whitelist walk that turns a
//! declarative expression into a structured value without executing any
//! code.  Supported shapes: object literals, array literals (sparse
//! holes are skipped), string literals, and the two no-op wrappers
//! (a type-assertion and a const-assertion); everything else is
//! rejected.

use vstd::prelude::*;

use crate::error::{Error, ErrorV};

verus! {

// ------------------------------------------------------------------
// The expression model
// ------------------------------------------------------------------

/// A property name inside an object literal.
pub enum PropKey {
    /// An identifier-like name.
    Ident(String),
    /// A string name.
    Str(String),
    /// Any other form (a computed or numeric name); the payload is a
    /// description used in the error.
    Unsupported(String),
}

/// One property of an object literal.
pub enum ObjectProp {
    /// `key: value`.
    KeyValue(PropKey, ConfigExpr),
    /// A spread or any property that is not a plain key/value pair;
    /// skipped silently.
    Other,
}

/// The expression shapes the evaluator distinguishes, as extracted from
/// a parsed configuration script.
pub enum ConfigExpr {
    /// An object literal.
    Object(Vec<ObjectProp>),
    /// An array literal; a `None` element is a sparse hole.
    Array(Vec<Option<ConfigExpr>>),
    /// A string literal.
    Str(String),
    /// A bare identifier: resolvable only in export position, rejected
    /// by the evaluator itself.
    Ident(String),
    /// A type-assertion wrapper: passes through to its inner expression.
    Satisfies(Box<ConfigExpr>),
    /// A const-assertion wrapper: passes through to its inner expression.
    ConstAssertion(Box<ConfigExpr>),
    /// Any other expression; the payload is a description used in the
    /// error.
    Unsupported(String),
}

/// The view of a property name.
pub enum PropKeyV {
    Ident(Seq<char>),
    Str(Seq<char>),
    Unsupported(Seq<char>),
}

/// The view of one object property.
pub enum ObjectPropV {
    KeyValue(PropKeyV, ExprV),
    Other,
}

/// The view of an expression.
pub enum ExprV {
    Object(Seq<ObjectPropV>),
    Array(Seq<Option<ExprV>>),
    Str(Seq<char>),
    Ident(Seq<char>),
    Satisfies(Box<ExprV>),
    ConstAssertion(Box<ExprV>),
    Unsupported(Seq<char>),
}

/// The view of a property name.
pub open spec fn prop_key_view(k: PropKey) -> PropKeyV {
    match k {
        PropKey::Ident(s) => PropKeyV::Ident(s@),
        PropKey::Str(s) => PropKeyV::Str(s@),
        PropKey::Unsupported(s) => PropKeyV::Unsupported(s@),
    }
}

/// The view of an expression.
pub open spec fn expr_view(e: ConfigExpr) -> ExprV
    decreases e,
{
    match e {
        ConfigExpr::Object(props) => ExprV::Object(props_views(props@)),
        ConfigExpr::Array(elems) => ExprV::Array(elems_views(elems@)),
        ConfigExpr::Str(s) => ExprV::Str(s@),
        ConfigExpr::Ident(s) => ExprV::Ident(s@),
        ConfigExpr::Satisfies(inner) => ExprV::Satisfies(Box::new(expr_view(*inner))),
        ConfigExpr::ConstAssertion(inner) => ExprV::ConstAssertion(Box::new(expr_view(*inner))),
        ConfigExpr::Unsupported(s) => ExprV::Unsupported(s@),
    }
}

/// The views of a property sequence.
pub open spec fn props_views(s: Seq<ObjectProp>) -> Seq<ObjectPropV>
    decreases s,
{
    if s.len() == 0 {
        Seq::empty()
    } else {
        props_views(s.drop_last()).push(prop_view(s.last()))
    }
}

/// The views of an element sequence.
pub open spec fn elems_views(s: Seq<Option<ConfigExpr>>) -> Seq<Option<ExprV>>
    decreases s,
{
    if s.len() == 0 {
        Seq::empty()
    } else {
        elems_views(s.drop_last()).push(
            match s.last() {
                Some(inner) => Some(expr_view(inner)),
                None => None,
            },
        )
    }
}

/// The view of one object property.
pub open spec fn prop_view(p: ObjectProp) -> ObjectPropV
    decreases p,
{
    match p {
        ObjectProp::KeyValue(k, e) => ObjectPropV::KeyValue(prop_key_view(k), expr_view(e)),
        ObjectProp::Other => ObjectPropV::Other,
    }
}

impl View for ConfigExpr {
    type V = ExprV;

    open spec fn view(&self) -> ExprV {
        expr_view(*self)
    }
}

// ------------------------------------------------------------------
// The value model
// ------------------------------------------------------------------

/// A structured configuration value: what the evaluator produces and
/// the typed decoder consumes.
pub enum Value {
    /// A string.
    Str(String),
    /// An array of values.
    Array(Vec<Value>),
    /// An object: insertion-ordered fields with pairwise-distinct
    /// names; writing an existing name again replaces its value in
    /// place.
    Object(Vec<(String, Value)>),
}

/// The view of a value.
pub enum ValueV {
    Str(Seq<char>),
    Array(Seq<ValueV>),
    Object(Seq<(Seq<char>, ValueV)>),
}

/// The view of a value.
pub open spec fn value_view(v: Value) -> ValueV
    decreases v,
{
    match v {
        Value::Str(s) => ValueV::Str(s@),
        Value::Array(items) => ValueV::Array(values_views(items@)),
        Value::Object(fields) => ValueV::Object(fields_views(fields@)),
    }
}

/// The views of a value sequence.
pub open spec fn values_views(s: Seq<Value>) -> Seq<ValueV>
    decreases s,
{
    if s.len() == 0 {
        Seq::empty()
    } else {
        values_views(s.drop_last()).push(value_view(s.last()))
    }
}

/// The views of an object's field sequence.
pub open spec fn fields_views(s: Seq<(String, Value)>) -> Seq<(Seq<char>, ValueV)>
    decreases s,
{
    if s.len() == 0 {
        Seq::empty()
    } else {
        fields_views(s.drop_last()).push((s.last().0@, value_view(s.last().1)))
    }
}

impl View for Value {
    type V = ValueV;

    open spec fn view(&self) -> ValueV {
        value_view(*self)
    }
}

/// Whether an object view has a field named `k`.
pub open spec fn obj_has_key(m: Seq<(Seq<char>, ValueV)>, k: Seq<char>) -> bool {
    exists|i: int| 0 <= i < m.len() && (#[trigger] m[i]).0 == k
}

/// Insert one field: an existing name keeps its position and takes the
/// new value; a new name is appended.
pub open spec fn insert_field(m: Seq<(Seq<char>, ValueV)>, k: Seq<char>, v: ValueV) -> Seq<
    (Seq<char>, ValueV),
>
    decreases m.len(),
{
    if m.len() == 0 {
        seq![(k, v)]
    } else if m[0].0 == k {
        seq![(k, v)] + m.drop_first()
    } else {
        seq![m[0]] + insert_field(m.drop_first(), k, v)
    }
}

// ------------------------------------------------------------------
// The evaluator
// ------------------------------------------------------------------

/// The name an object key contributes, or the error rejecting it.
pub open spec fn eval_key(k: PropKeyV) -> Result<Seq<char>, ErrorV> {
    match k {
        PropKeyV::Ident(name) => Ok(name),
        PropKeyV::Str(name) => Ok(name),
        PropKeyV::Unsupported(d) => Err(ErrorV::InvalidKey { description: d }),
    }
}

/// What the whitelist evaluation of an expression yields: a structured
/// value, or the error for the first unsupported node in evaluation
/// order.
pub open spec fn eval_expr(e: ExprV) -> Result<ValueV, ErrorV>
    decreases e,
{
    match e {
        ExprV::Satisfies(inner) => eval_expr(*inner),
        ExprV::ConstAssertion(inner) => eval_expr(*inner),
        ExprV::Object(props) => match eval_props(props) {
            Ok(fields) => Ok(ValueV::Object(fields)),
            Err(er) => Err(er),
        },
        ExprV::Array(elems) => match eval_elems(elems) {
            Ok(items) => Ok(ValueV::Array(items)),
            Err(er) => Err(er),
        },
        ExprV::Str(s) => Ok(ValueV::Str(s)),
        ExprV::Ident(name) => Err(ErrorV::UnsupportedExpression { description: name }),
        ExprV::Unsupported(d) => Err(ErrorV::UnsupportedExpression { description: d }),
    }
}

/// Evaluate the properties of an object literal, left to right: plain
/// key/value pairs are inserted in order (a repeated name replaces the
/// earlier value in place), other property forms are skipped.
pub open spec fn eval_props(props: Seq<ObjectPropV>) -> Result<Seq<(Seq<char>, ValueV)>, ErrorV>
    decreases props,
{
    if props.len() == 0 {
        Ok(Seq::empty())
    } else {
        match eval_props(props.drop_last()) {
            Ok(fields) => match props.last() {
                ObjectPropV::KeyValue(k, e) => match eval_key(k) {
                    Ok(name) => match eval_expr(e) {
                        Ok(v) => Ok(insert_field(fields, name, v)),
                        Err(er) => Err(er),
                    },
                    Err(er) => Err(er),
                },
                ObjectPropV::Other => Ok(fields),
            },
            Err(er) => Err(er),
        }
    }
}

/// Evaluate the elements of an array literal, left to right, skipping
/// sparse holes.
pub open spec fn eval_elems(elems: Seq<Option<ExprV>>) -> Result<Seq<ValueV>, ErrorV>
    decreases elems,
{
    if elems.len() == 0 {
        Ok(Seq::empty())
    } else {
        match eval_elems(elems.drop_last()) {
            Ok(items) => match elems.last() {
                Some(e) => match eval_expr(e) {
                    Ok(v) => Ok(items.push(v)),
                    Err(er) => Err(er),
                },
                None => Ok(items),
            },
            Err(er) => Err(er),
        }
    }
}

// ------------------------------------------------------------------
// The executable evaluator
// ------------------------------------------------------------------

/// `fields_views` maps positions one for one.
pub proof fn lemma_fields_views_index(s: Seq<(String, Value)>)
    ensures
        fields_views(s).len() == s.len(),
        forall|i: int|
            0 <= i < s.len() ==> #[trigger] fields_views(s)[i] == (s[i].0@, value_view(s[i].1)),
    decreases s.len(),
{
    if s.len() > 0 {
        lemma_fields_views_index(s.drop_last());
        assert forall|i: int| 0 <= i < s.len() implies #[trigger] fields_views(s)[i] == (
            s[i].0@,
            value_view(s[i].1),
        ) by {
            if i < s.len() - 1 {
                assert(fields_views(s)[i] == fields_views(s.drop_last())[i]);
                assert(s.drop_last()[i] == s[i]);
            }
        }
    }
}

/// `props_views` maps positions one for one.
pub proof fn lemma_props_views_index(s: Seq<ObjectProp>)
    ensures
        props_views(s).len() == s.len(),
        forall|i: int| 0 <= i < s.len() ==> #[trigger] props_views(s)[i] == prop_view(s[i]),
    decreases s.len(),
{
    if s.len() > 0 {
        lemma_props_views_index(s.drop_last());
        assert forall|i: int| 0 <= i < s.len() implies #[trigger] props_views(s)[i] == prop_view(
            s[i],
        ) by {
            if i < s.len() - 1 {
                assert(props_views(s)[i] == props_views(s.drop_last())[i]);
                assert(s.drop_last()[i] == s[i]);
            }
        }
    }
}

/// `elems_views` maps positions one for one.
pub proof fn lemma_elems_views_index(s: Seq<Option<ConfigExpr>>)
    ensures
        elems_views(s).len() == s.len(),
        forall|i: int|
            0 <= i < s.len() ==> #[trigger] elems_views(s)[i] == (match s[i] {
                Some(inner) => Some(expr_view(inner)),
                None => None,
            }),
    decreases s.len(),
{
    if s.len() > 0 {
        lemma_elems_views_index(s.drop_last());
        assert forall|i: int| 0 <= i < s.len() implies #[trigger] elems_views(s)[i] == (
        match s[i] {
            Some(inner) => Some(expr_view(inner)),
            None => None,
        }) by {
            if i < s.len() - 1 {
                assert(elems_views(s)[i] == elems_views(s.drop_last())[i]);
                assert(s.drop_last()[i] == s[i]);
            }
        }
    }
}

/// `values_views` maps positions one for one.
pub proof fn lemma_values_views_index(s: Seq<Value>)
    ensures
        values_views(s).len() == s.len(),
        forall|i: int| 0 <= i < s.len() ==> #[trigger] values_views(s)[i] == value_view(s[i]),
    decreases s.len(),
{
    if s.len() > 0 {
        lemma_values_views_index(s.drop_last());
        assert forall|i: int| 0 <= i < s.len() implies #[trigger] values_views(s)[i] == value_view(
            s[i],
        ) by {
            if i < s.len() - 1 {
                assert(values_views(s)[i] == values_views(s.drop_last())[i]);
                assert(s.drop_last()[i] == s[i]);
            }
        }
    }
}

/// `insert_field` on a present name updates in place.
pub proof fn lemma_insert_field_at(m: Seq<(Seq<char>, ValueV)>, k: Seq<char>, v: ValueV, idx: int)
    requires
        0 <= idx < m.len(),
        m[idx].0 == k,
        forall|j: int| 0 <= j < idx ==> (#[trigger] m[j]).0 != k,
    ensures
        insert_field(m, k, v) == m.update(idx, (k, v)),
    decreases m.len(),
{
    if idx == 0 {
        assert(seq![(k, v)] + m.drop_first() =~= m.update(0, (k, v)));
    } else {
        assert(m[0].0 != k);
        let d = m.drop_first();
        assert forall|j: int| 0 <= j < idx - 1 implies (#[trigger] d[j]).0 != k by {
            assert(m[j + 1].0 != k);
        }
        lemma_insert_field_at(d, k, v, idx - 1);
        assert(seq![m[0]] + d.update(idx - 1, (k, v)) =~= m.update(idx, (k, v)));
    }
}

/// `insert_field` on an absent name appends.
pub proof fn lemma_insert_field_new(m: Seq<(Seq<char>, ValueV)>, k: Seq<char>, v: ValueV)
    requires
        !obj_has_key(m, k),
    ensures
        insert_field(m, k, v) == m.push((k, v)),
    decreases m.len(),
{
    if m.len() == 0 {
        assert(seq![(k, v)] =~= m.push((k, v)));
    } else {
        assert(m[0].0 != k) by {
            if m[0].0 == k {
                assert(obj_has_key(m, k));
            }
        }
        let d = m.drop_first();
        assert(!obj_has_key(d, k)) by {
            if obj_has_key(d, k) {
                let i = choose|i: int| 0 <= i < d.len() && d[i].0 == k;
                assert(m[i + 1].0 == k);
                assert(obj_has_key(m, k));
            }
        }
        lemma_insert_field_new(d, k, v);
        assert(seq![m[0]] + d.push((k, v)) =~= m.push((k, v)));
    }
}

/// An error seen while evaluating a prefix of the properties is the
/// error of the whole property list.
pub proof fn lemma_eval_props_err_extends(s: Seq<ObjectPropV>, i: int)
    requires
        0 <= i <= s.len(),
        eval_props(s.take(i)) is Err,
    ensures
        eval_props(s) == eval_props(s.take(i)),
    decreases s.len() - i,
{
    if i < s.len() {
        assert(s.take(i + 1).drop_last() =~= s.take(i));
        lemma_eval_props_err_extends(s, i + 1);
    } else {
        assert(s.take(i) =~= s);
    }
}

/// An error seen while evaluating a prefix of the elements is the
/// error of the whole element list.
pub proof fn lemma_eval_elems_err_extends(s: Seq<Option<ExprV>>, i: int)
    requires
        0 <= i <= s.len(),
        eval_elems(s.take(i)) is Err,
    ensures
        eval_elems(s) == eval_elems(s.take(i)),
    decreases s.len() - i,
{
    if i < s.len() {
        assert(s.take(i + 1).drop_last() =~= s.take(i));
        lemma_eval_elems_err_extends(s, i + 1);
    } else {
        assert(s.take(i) =~= s);
    }
}

/// Insert one field into an object under construction: a repeated name
/// replaces the earlier value in place, a new name is appended.
fn insert_field_exec(fields: &mut Vec<(String, Value)>, k: String, v: Value)
    ensures
        fields_views(final(fields)@) == insert_field(fields_views(old(fields)@), k@, v@),
{
    let ghost m0 = fields_views(fields@);
    proof {
        lemma_fields_views_index(fields@);
    }
    let n = fields.len();
    let mut i: usize = 0;
    while i < n
        invariant
            n == fields@.len(),
            i <= n,
            fields@ == old(fields)@,
            m0 == fields_views(fields@),
            m0.len() == n,
            forall|j: int| 0 <= j < i ==> (#[trigger] m0[j]).0 != k@,
        decreases n - i,
    {
        proof {
            lemma_fields_views_index(fields@);
        }
        if fields[i].0 == k {
            proof {
                assert(m0[i as int].0 == k@);
                lemma_insert_field_at(m0, k@, value_view(v), i as int);
            }
            fields[i] = (k, v);
            proof {
                lemma_fields_views_index(fields@);
                assert(fields_views(fields@) =~= m0.update(i as int, (k@, value_view(v))));
            }
            return ;
        }
        proof {
            assert(m0[i as int].0 != k@);
        }
        i += 1;
    }
    proof {
        assert(!obj_has_key(m0, k@));
        lemma_insert_field_new(m0, k@, value_view(v));
    }
    let ghost f0 = fields@;
    fields.push((k, v));
    proof {
        assert(fields@.drop_last() =~= f0);
        assert(fields_views(fields@) == fields_views(f0).push((fields@.last().0@, value_view(fields@.last().1))));
        assert(fields_views(fields@) =~= m0.push((k@, value_view(v))));
    }
}

/// Evaluate one configuration expression into a structured value, or
/// reject the first unsupported node, exactly as `eval_expr` states.
#[verifier::loop_isolation(false)]
pub fn expr_to_value(expr: &ConfigExpr) -> (r: Result<Value, Error>)
    ensures
        (match (r, eval_expr(expr@)) {
            (Ok(v), Ok(sv)) => v@ == sv,
            (Err(e), Err(se)) => e@ == se,
            _ => false,
        }),
    decreases expr,
{
    match expr {
        ConfigExpr::Satisfies(inner) => expr_to_value(inner),
        ConfigExpr::ConstAssertion(inner) => expr_to_value(inner),
        ConfigExpr::Str(s) => Ok(Value::Str(s.clone())),
        ConfigExpr::Ident(name) => Err(
            Error::UnsupportedExpression { description: name.clone() },
        ),
        ConfigExpr::Unsupported(d) => Err(
            Error::UnsupportedExpression { description: d.clone() },
        ),
        ConfigExpr::Object(props) => {
            let ghost pv = props_views(props@);
            proof {
                lemma_props_views_index(props@);
            }
            let mut fields: Vec<(String, Value)> = Vec::new();
            let n = props.len();
            let mut i: usize = 0;
            proof {
                assert(pv.take(0) =~= Seq::<ObjectPropV>::empty());
                assert(fields_views(fields@) =~= Seq::<(Seq<char>, ValueV)>::empty());
            }
            while i < n
                invariant
                    n == props@.len(),
                    i <= n,
                    pv == props_views(props@),
                    pv.len() == n,
                    forall|j: int| 0 <= j < n ==> #[trigger] pv[j] == prop_view(props@[j]),
                    eval_props(pv.take(i as int)) == Ok::<_, ErrorV>(fields_views(fields@)),
                decreases n - i,
            {
                proof {
                    assert(pv.take(i + 1 as int).drop_last() =~= pv.take(i as int));
                    assert(pv.take(i + 1 as int).last() == prop_view(props@[i as int]));
                }
                match &props[i] {
                    ObjectProp::KeyValue(key, e) => {
                        let name = match key {
                            PropKey::Ident(name) => name.clone(),
                            PropKey::Str(name) => name.clone(),
                            PropKey::Unsupported(d) => {
                                proof {
                                    assert(eval_props(pv.take(i + 1 as int)) == Err::<
                                        Seq<(Seq<char>, ValueV)>,
                                        _,
                                    >(ErrorV::InvalidKey { description: d@ }));
                                    lemma_eval_props_err_extends(pv, i + 1 as int);
                                    assert(pv.take(n as int) =~= pv);
                                }
                                return Err(Error::InvalidKey { description: d.clone() });
                            },
                        };
                        proof {
                            assert(decreases_to!(*expr => *props));
                            assert(decreases_to!(*props => props@));
                            assert(decreases_to!(props@ => props@[i as int]));
                        }
                        match expr_to_value(e) {
                            Ok(v) => {
                                let ghost f0 = fields_views(fields@);
                                let ghost vv = value_view(v);
                                insert_field_exec(&mut fields, name, v);
                                proof {
                                    assert(fields_views(fields@) == insert_field(f0, name@, vv));
                                }
                            },
                            Err(er) => {
                                proof {
                                    lemma_eval_props_err_extends(pv, i + 1 as int);
                                    assert(pv.take(n as int) =~= pv);
                                }
                                return Err(er);
                            },
                        }
                    },
                    ObjectProp::Other => {
                    },
                }
                i += 1;
            }
            proof {
                assert(pv.take(n as int) =~= pv);
            }
            Ok(Value::Object(fields))
        },
        ConfigExpr::Array(elems) => {
            let ghost ev = elems_views(elems@);
            proof {
                lemma_elems_views_index(elems@);
            }
            let mut items: Vec<Value> = Vec::new();
            let n = elems.len();
            let mut i: usize = 0;
            proof {
                assert(ev.take(0) =~= Seq::<Option<ExprV>>::empty());
                assert(values_views(items@) =~= Seq::<ValueV>::empty());
            }
            while i < n
                invariant
                    n == elems@.len(),
                    i <= n,
                    ev == elems_views(elems@),
                    ev.len() == n,
                    forall|j: int|
                        0 <= j < n ==> #[trigger] ev[j] == (match elems@[j] {
                            Some(inner) => Some(expr_view(inner)),
                            None => None,
                        }),
                    eval_elems(ev.take(i as int)) == Ok::<_, ErrorV>(values_views(items@)),
                decreases n - i,
            {
                proof {
                    assert(ev.take(i + 1 as int).drop_last() =~= ev.take(i as int));
                    assert(ev.take(i + 1 as int).last() == ev[i as int]);
                }
                match &elems[i] {
                    Some(e) => {
                        proof {
                            assert(decreases_to!(*expr => *elems));
                            assert(decreases_to!(*elems => elems@));
                            assert(decreases_to!(elems@ => elems@[i as int]));
                            assert(elems@[i as int] == Some(*e));
                        }
                        match expr_to_value(e) {
                            Ok(v) => {
                                let ghost it0 = items@;
                                items.push(v);
                                proof {
                                    assert(items@.drop_last() =~= it0);
                                    assert(values_views(items@) == values_views(it0).push(
                                        value_view(items@.last()),
                                    ));
                                }
                            },
                            Err(er) => {
                                proof {
                                    lemma_eval_elems_err_extends(ev, i + 1 as int);
                                    assert(ev.take(n as int) =~= ev);
                                }
                                return Err(er);
                            },
                        }
                    },
                    None => {
                    },
                }
                i += 1;
            }
            proof {
                assert(ev.take(n as int) =~= ev);
            }
            Ok(Value::Array(items))
        },
    }
}

} // verus!
