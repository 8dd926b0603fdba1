//! The generic value tree: the intermediate representation that every
//! conversion passes through, together with its mathematical model.

use vstd::prelude::*;

verus! {

broadcast use vstd::std_specs::vec::group_vec_axioms;

/// Mathematical model of a document: the same tree shape over `Seq` and `int`.
pub enum Doc {
    Null,
    Bool(bool),
    Int(int),
    Text(Seq<char>),
    List(Seq<Doc>),
    Dict(Seq<(Seq<char>, Doc)>),
}

/// A document tree as held at run time.  Mapping entries keep insertion
/// order; keys are strings (scalar keys of the indentation-based format
/// are coerced to their textual form when the tree is built).
#[derive(Debug, PartialEq)]
pub enum Value {
    Null,
    Bool(bool),
    Int(i64),
    Str(String),
    List(Vec<Value>),
    Dict(Vec<(String, Value)>),
}

/// The model of `v`: the same tree over mathematical types.
pub open spec fn value_model(v: Value) -> Doc
    decreases v, 0int,
{
    match v {
        Value::Null => Doc::Null,
        Value::Bool(b) => Doc::Bool(b),
        Value::Int(n) => Doc::Int(n as int),
        Value::Str(s) => Doc::Text(s@),
        Value::List(items) => {
            proof {
                assert(decreases_to!(v => items));
                assert(decreases_to!(items => items@));
            }
            Doc::List(list_model(items@, 0))
        },
        Value::Dict(entries) => {
            proof {
                assert(decreases_to!(v => entries));
                assert(decreases_to!(entries => entries@));
            }
            Doc::Dict(dict_model(entries@, 0))
        },
    }
}

/// The models of the items of `items` from position `i` on, in order.
pub open spec fn list_model(items: Seq<Value>, i: int) -> Seq<Doc>
    decreases items, items.len() - i,
{
    if 0 <= i < items.len() {
        seq![value_model(items[i])] + list_model(items, i + 1)
    } else {
        Seq::empty()
    }
}

/// The models of the entries of `entries` from position `i` on, in order.
pub open spec fn dict_model(entries: Seq<(String, Value)>, i: int) -> Seq<(Seq<char>, Doc)>
    decreases entries, entries.len() - i,
{
    if 0 <= i < entries.len() {
        seq![(entries[i].0@, value_model(entries[i].1))] + dict_model(entries, i + 1)
    } else {
        Seq::empty()
    }
}

impl View for Value {
    type V = Doc;

    open spec fn view(&self) -> Doc {
        value_model(*self)
    }
}

/// A well-formed document: every integer fits the machine integer type and
/// every mapping's keys are distinct.  Every tree expressible in the
/// intersection of the two formats' data models satisfies this.
pub open spec fn wf(d: Doc) -> bool
    decreases d,
{
    match d {
        Doc::Int(n) => i64::MIN <= n <= i64::MAX,
        Doc::List(items) => forall|i: int| 0 <= i < items.len() ==> wf(#[trigger] items[i]),
        Doc::Dict(entries) => (forall|i: int|
            0 <= i < entries.len() ==> wf(#[trigger] entries[i].1)) && unique_keys(entries),
        _ => true,
    }
}

/// No two entries share a key.
pub open spec fn unique_keys(entries: Seq<(Seq<char>, Doc)>) -> bool {
    forall|i: int, j: int| 0 <= i < j < entries.len() ==> entries[i].0 != entries[j].0
}

pub proof fn lemma_list_model(items: Seq<Value>, i: int)
    requires
        0 <= i <= items.len(),
    ensures
        list_model(items, i).len() == items.len() - i,
        forall|j: int|
            0 <= j < items.len() - i ==> #[trigger] list_model(items, i)[j] == value_model(
                items[i + j],
            ),
    decreases items.len() - i,
{
    if i < items.len() {
        lemma_list_model(items, i + 1);
        assert forall|j: int| 0 <= j < items.len() - i implies #[trigger] list_model(items, i)[j]
            == value_model(items[i + j]) by {
            if j > 0 {
                assert(list_model(items, i)[j] == list_model(items, i + 1)[j - 1]);
                assert(list_model(items, i + 1)[j - 1] == value_model(items[i + 1 + (j - 1)]));
            }
        }
    }
}

pub proof fn lemma_dict_model(entries: Seq<(String, Value)>, i: int)
    requires
        0 <= i <= entries.len(),
    ensures
        dict_model(entries, i).len() == entries.len() - i,
        forall|j: int|
            0 <= j < entries.len() - i ==> #[trigger] dict_model(entries, i)[j] == (
            entries[i + j].0@, value_model(entries[i + j].1)),
    decreases entries.len() - i,
{
    if i < entries.len() {
        lemma_dict_model(entries, i + 1);
        assert forall|j: int| 0 <= j < entries.len() - i implies #[trigger] dict_model(
            entries,
            i,
        )[j] == (entries[i + j].0@, value_model(entries[i + j].1)) by {
            if j > 0 {
                assert(dict_model(entries, i)[j] == dict_model(entries, i + 1)[j - 1]);
                assert(dict_model(entries, i + 1)[j - 1] == (entries[i + 1 + (j - 1)].0@,
                value_model(entries[i + 1 + (j - 1)].1)));
            }
        }
    }
}

/// Prepending an item prepends its model.
pub proof fn lemma_list_model_cons(v: Value, items: Seq<Value>)
    ensures
        list_model(seq![v] + items, 0) == seq![value_model(v)] + list_model(items, 0),
{
    let u = seq![v] + items;
    lemma_list_model(u, 0);
    lemma_list_model(items, 0);
    assert forall|j: int| 0 <= j < u.len() implies #[trigger] list_model(u, 0)[j] == (seq![
        value_model(v),
    ] + list_model(items, 0))[j] by {
        assert(list_model(u, 0)[j] == value_model(u[0 + j]));
        if j > 0 {
            assert(u[j] == items[j - 1]);
            assert(list_model(items, 0)[j - 1] == value_model(items[0 + (j - 1)]));
        }
    }
    assert(list_model(u, 0) =~= seq![value_model(v)] + list_model(items, 0));
}

/// Prepending an entry prepends its model.
pub proof fn lemma_dict_model_cons(k: String, v: Value, entries: Seq<(String, Value)>)
    ensures
        dict_model(seq![(k, v)] + entries, 0) == seq![(k@, value_model(v))] + dict_model(
            entries,
            0,
        ),
{
    let u = seq![(k, v)] + entries;
    lemma_dict_model(u, 0);
    lemma_dict_model(entries, 0);
    assert forall|j: int| 0 <= j < u.len() implies #[trigger] dict_model(u, 0)[j] == (seq![
        (k@, value_model(v)),
    ] + dict_model(entries, 0))[j] by {
        assert(dict_model(u, 0)[j] == (u[0 + j].0@, value_model(u[0 + j].1)));
        if j > 0 {
            assert(u[j] == entries[j - 1]);
            assert(dict_model(entries, 0)[j - 1] == (entries[0 + (j - 1)].0@, value_model(
                entries[0 + (j - 1)].1,
            )));
        }
    }
    assert(dict_model(u, 0) =~= seq![(k@, value_model(v))] + dict_model(entries, 0));
}

/// Why a document failed to parse.
#[derive(Clone, Copy, Debug, PartialEq, Eq)]
pub enum ParseErrorKind {
    UnexpectedEnd,
    BadValue,
    BadEscape,
    BadNumber,
    BadKey,
    BadScalar,
    DuplicateKey,
    TrailingContent,
}

/// A violation of the source format's grammar, with the nature of the
/// violation and a position: a character offset for the bracketed
/// format, a line index for the indentation-based one.
#[derive(Clone, Copy, Debug)]
pub struct ParseError {
    pub kind: ParseErrorKind,
    pub pos: usize,
}

/// The diagnostic text for each kind of violation.
pub open spec fn message_of(k: ParseErrorKind) -> Seq<char> {
    match k {
        ParseErrorKind::UnexpectedEnd => "unexpected end of input"@,
        ParseErrorKind::BadValue => "expected a value"@,
        ParseErrorKind::BadEscape => "invalid escape sequence"@,
        ParseErrorKind::BadNumber => "invalid numeric literal"@,
        ParseErrorKind::BadKey => "invalid mapping key"@,
        ParseErrorKind::BadScalar => "invalid scalar literal"@,
        ParseErrorKind::DuplicateKey => "duplicate mapping key"@,
        ParseErrorKind::TrailingContent => "trailing content after document"@,
    }
}

impl ParseError {
    /// A short description of the violation.
    pub fn message(&self) -> (r: String)
        ensures
            r@ == message_of(self.kind),
    {
        match self.kind {
            ParseErrorKind::UnexpectedEnd => String::from_str("unexpected end of input"),
            ParseErrorKind::BadValue => String::from_str("expected a value"),
            ParseErrorKind::BadEscape => String::from_str("invalid escape sequence"),
            ParseErrorKind::BadNumber => String::from_str("invalid numeric literal"),
            ParseErrorKind::BadKey => String::from_str("invalid mapping key"),
            ParseErrorKind::BadScalar => String::from_str("invalid scalar literal"),
            ParseErrorKind::DuplicateKey => String::from_str("duplicate mapping key"),
            ParseErrorKind::TrailingContent => String::from_str("trailing content after document"),
        }
    }
}

} // verus!
