//! The value tree: one parsed configuration source, as the external loader
//! hands it over.

use crate::text::bool_chars;
use crate::text::int_chars;
use crate::text::join_seqs;
use crate::text::render_bool;
use crate::text::render_i64;
use crate::text::seq_views;
use crate::text::join_components;
use vstd::prelude::*;

verus! {

/// One node of a parsed configuration source's tree.
///
/// The external loader produces such trees; the library only consumes them.
#[derive(Debug)]
pub enum Value {
    /// An absent value: it has no environment-variable representation and
    /// contributes no key of its own.
    Null,
    /// A boolean scalar, rendered `true` or `false`.
    Bool(bool),
    /// An integer scalar, rendered in decimal.
    Int(i64),
    /// A floating-point scalar, carried as its rendered decimal text; the
    /// library itself holds no floating-point values.
    Float(String),
    /// A string scalar, rendered as itself.
    Str(String),
    /// Nested configuration: key/value pairs with pairwise distinct keys.
    Table(Vec<(String, Value)>),
    /// An ordered sequence of values.
    Array(Vec<Value>),
}

/// Whether a node is a scalar: anything but a table or an array.
pub open spec fn is_scalar(v: Value) -> bool {
    match v {
        Value::Table(_) => false,
        Value::Array(_) => false,
        _ => true,
    }
}

/// The canonical string form of a scalar: booleans as `true`/`false`,
/// integers in decimal, floats and strings as the text they carry, and
/// `Null` as the empty string.
pub open spec fn scalar_chars(v: Value) -> Seq<char> {
    match v {
        Value::Null => Seq::empty(),
        Value::Bool(b) => bool_chars(b),
        Value::Int(i) => int_chars(i as int),
        Value::Float(s) => s@,
        Value::Str(s) => s@,
        Value::Table(_) => Seq::empty(),
        Value::Array(_) => Seq::empty(),
    }
}

/// Whether every element of an array is a scalar.
pub open spec fn all_scalars(elems: Seq<Value>) -> bool {
    forall|i: int| 0 <= i < elems.len() ==> is_scalar(#[trigger] elems[i])
}

/// The string forms of an array's elements, in order.
pub open spec fn scalar_views(elems: Seq<Value>) -> Seq<Seq<char>> {
    elems.map_values(|v: Value| scalar_chars(v))
}

/// The string form of one scalar.
pub fn render_scalar(v: &Value) -> (r: String)
    requires
        is_scalar(*v),
    ensures
        r@ == scalar_chars(*v),
{
    match v {
        Value::Null => String::new(),
        Value::Bool(b) => render_bool(*b),
        Value::Int(i) => render_i64(*i),
        Value::Float(s) => s.clone(),
        Value::Str(s) => s.clone(),
        Value::Table(_) => String::new(),
        Value::Array(_) => String::new(),
    }
}

/// The elements' string forms joined by the array separator, or `None` when
/// some element is itself a table or an array.
pub fn render_array(elems: &Vec<Value>, array_separator: &str) -> (r: Option<String>)
    ensures
        match r {
            Some(s) => all_scalars(elems@) && s@ == join_seqs(
                scalar_views(elems@),
                array_separator@,
            ),
            None => !all_scalars(elems@),
        },
{
    let mut parts: Vec<String> = Vec::new();
    let mut i: usize = 0;
    while i < elems.len()
        invariant
            i <= elems@.len(),
            parts@.len() == i,
            forall|j: int| 0 <= j < i ==> is_scalar(#[trigger] elems@[j]),
            seq_views(parts@) =~= scalar_views(elems@).take(i as int),
        decreases elems@.len() - i,
    {
        match &elems[i] {
            Value::Table(_) => {
                return None;
            },
            Value::Array(_) => {
                return None;
            },
            _ => {},
        }
        let s = render_scalar(&elems[i]);
        parts.push(s);
        proof {
            assert(seq_views(parts@) =~= scalar_views(elems@).take(i as int + 1));
        }
        i = i + 1;
    }
    proof {
        assert(scalar_views(elems@).take(elems@.len() as int) =~= scalar_views(elems@));
    }
    Some(join_components(&parts, array_separator))
}

} // verus!
