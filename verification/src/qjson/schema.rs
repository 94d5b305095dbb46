//! What is expected of a text, and where its values go.

use vstd::prelude::*;

verus! {

/// A number for a slot that takes decimal numbers.
#[derive(Debug, Copy, Clone, PartialEq, Eq)]
pub enum Number<'a> {
    /// An integer that stood where a decimal number was asked for.
    Integer(i64),
    /// A decimal number, as the text has it: an optional minus sign, then
    /// digits around one period, with a digit behind the period.
    Decimal(&'a str),
}

/// What a [`Number`] holds.
pub enum NumberView {
    Integer(i64),
    Decimal(Seq<char>),
}

impl<'a> View for Number<'a> {
    type V = NumberView;

    open spec fn view(&self) -> NumberView {
        match *self {
            Number::Integer(i) => NumberView::Integer(i),
            Number::Decimal(text) => NumberView::Decimal(text@),
        }
    }
}

/// What is expected of a JSON value, with a slot for each scalar.
///
/// A slot is `None` while it is unset. An array is matched element by
/// element, an object key by key. What is read into the slots lives as long
/// as the text, `'a`; the keys may live shorter, `'k`.
#[derive(Debug, PartialEq, Eq)]
pub enum Schema<'a, 'k> {
    /// An array of at most as many values as there are schemas.
    Array(Vec<Schema<'a, 'k>>),
    /// `true` or `false`.
    Bool(Option<bool>),
    /// A number, with or without a period.
    Float(Option<Number<'a>>),
    /// A number without a period.
    Integer(Option<i64>),
    /// An object; keys that are not listed are read and ignored.
    Object(Vec<(&'k str, Schema<'a, 'k>)>),
    /// A string, as the text has it between the quotes.
    Str(Option<&'a str>),
}

/// The keys of an object and the schemas of their values.
pub type Fields<'a, 'k> = Vec<(&'k str, Schema<'a, 'k>)>;

/// What the keys of an object and the schemas of their values hold.
pub type FieldViews = Seq<(Seq<char>, SchemaView)>;

/// What a [`Schema`] holds.
pub enum SchemaView {
    Array(Seq<SchemaView>),
    Bool(Option<bool>),
    Float(Option<NumberView>),
    Integer(Option<i64>),
    Object(Seq<(Seq<char>, SchemaView)>),
    Str(Option<Seq<char>>),
}

impl<'a, 'k> View for Schema<'a, 'k> {
    type V = SchemaView;

    open spec fn view(&self) -> SchemaView
        decreases *self, 0nat,
    {
        match *self {
            Schema::Array(items) => SchemaView::Array(item_views(items@)),
            Schema::Bool(slot) => SchemaView::Bool(slot),
            Schema::Float(slot) => SchemaView::Float(
                match slot {
                    Some(number) => Some(number@),
                    None => None,
                },
            ),
            Schema::Integer(slot) => SchemaView::Integer(slot),
            Schema::Object(fields) => SchemaView::Object(field_views(fields@)),
            Schema::Str(slot) => SchemaView::Str(
                match slot {
                    Some(text) => Some(text@),
                    None => None,
                },
            ),
        }
    }
}

/// What the schemas of an array hold.
pub open spec fn item_views<'a, 'k>(items: Seq<Schema<'a, 'k>>) -> Seq<SchemaView>
    decreases items, 1nat,
{
    Seq::new(
        items.len(),
        |i: int|
            if 0 <= i < items.len() {
                items[i]@
            } else {
                SchemaView::Bool(None)
            },
    )
}

/// What the keys and schemas of an object hold.
pub open spec fn field_views<'a, 'k>(fields: Seq<(&'k str, Schema<'a, 'k>)>) -> FieldViews
    decreases fields, 1nat,
{
    Seq::new(
        fields.len(),
        |i: int|
            if 0 <= i < fields.len() {
                (fields[i].0@, fields[i].1@)
            } else {
                (Seq::empty(), SchemaView::Bool(None))
            },
    )
}

impl SchemaView {
    /// The same schema with every slot unset.
    pub open spec fn cleared(self) -> SchemaView
        decreases self, 0nat,
    {
        match self {
            SchemaView::Array(items) => SchemaView::Array(cleared_items(items)),
            SchemaView::Bool(_) => SchemaView::Bool(None),
            SchemaView::Float(_) => SchemaView::Float(None),
            SchemaView::Integer(_) => SchemaView::Integer(None),
            SchemaView::Object(fields) => SchemaView::Object(cleared_fields(fields)),
            SchemaView::Str(_) => SchemaView::Str(None),
        }
    }
}

impl SchemaView {
    /// Whether `other` is this schema with other values in its slots: the
    /// same kinds of values, in arrays of the same lengths and under the same
    /// keys.
    pub open spec fn same_shape(self, other: SchemaView) -> bool
        decreases self, 0nat,
    {
        match (self, other) {
            (SchemaView::Array(a), SchemaView::Array(b)) => same_shapes(a, b),
            (SchemaView::Bool(_), SchemaView::Bool(_)) => true,
            (SchemaView::Float(_), SchemaView::Float(_)) => true,
            (SchemaView::Integer(_), SchemaView::Integer(_)) => true,
            (SchemaView::Object(a), SchemaView::Object(b)) => same_fields(a, b),
            (SchemaView::Str(_), SchemaView::Str(_)) => true,
            _ => false,
        }
    }
}

/// Whether `b` is the schemas `a` with other values in their slots.
pub open spec fn same_shapes(a: Seq<SchemaView>, b: Seq<SchemaView>) -> bool
    decreases a, 1nat,
{
    a.len() == b.len() && forall|i: int| 0 <= i < a.len() ==> (#[trigger] a[i]).same_shape(b[i])
}

/// Whether `b` is the keys and schemas `a` with other values in their
/// slots.
pub open spec fn same_fields(a: FieldViews, b: FieldViews) -> bool
    decreases a, 1nat,
{
    a.len() == b.len() && forall|i: int|
        0 <= i < a.len() ==> (#[trigger] a[i]).0 == b[i].0 && a[i].1.same_shape(b[i].1)
}

/// A schema has its own shape, and keeps it when its slots are unset.
pub proof fn lemma_same_shape_cleared(a: SchemaView)
    ensures
        a.same_shape(a),
        a.same_shape(a.cleared()),
    decreases a,
{
    match a {
        SchemaView::Array(items) => {
            assert forall|i: int| 0 <= i < items.len() implies (#[trigger] items[i]).same_shape(
                items[i],
            ) && items[i].same_shape(cleared_items(items)[i]) by {
                lemma_same_shape_cleared(items[i]);
            }
        },
        SchemaView::Object(fields) => {
            assert forall|i: int| 0 <= i < fields.len() implies (#[trigger] fields[i]).1.same_shape(
                fields[i].1,
            ) && fields[i].1.same_shape(cleared_fields(fields)[i].1) by {
                lemma_same_shape_cleared(fields[i].1);
            }
        },
        _ => {},
    }
}

/// A schema that has the shape of one that has the shape of a third has
/// the shape of the third.
pub proof fn lemma_same_shape_trans(a: SchemaView, b: SchemaView, c: SchemaView)
    requires
        a.same_shape(b),
        b.same_shape(c),
    ensures
        a.same_shape(c),
    decreases a,
{
    match (a, b, c) {
        (SchemaView::Array(x), SchemaView::Array(y), SchemaView::Array(z)) => {
            assert forall|i: int| 0 <= i < x.len() implies (#[trigger] x[i]).same_shape(z[i]) by {
                assert(y[i].same_shape(z[i]));
                lemma_same_shape_trans(x[i], y[i], z[i]);
            }
        },
        (SchemaView::Object(x), SchemaView::Object(y), SchemaView::Object(z)) => {
            assert forall|i: int| 0 <= i < x.len() implies (#[trigger] x[i]).0 == z[i].0
                && x[i].1.same_shape(z[i].1) by {
                assert(y[i].0 == z[i].0 && y[i].1.same_shape(z[i].1));
                lemma_same_shape_trans(x[i].1, y[i].1, z[i].1);
            }
        },
        _ => {},
    }
}

/// The same schemas with every slot unset.
pub open spec fn cleared_items(items: Seq<SchemaView>) -> Seq<SchemaView>
    decreases items, 1nat,
{
    Seq::new(
        items.len(),
        |i: int|
            if 0 <= i < items.len() {
                items[i].cleared()
            } else {
                SchemaView::Bool(None)
            },
    )
}

/// The same keys and schemas with every slot unset.
pub open spec fn cleared_fields(fields: FieldViews) -> FieldViews
    decreases fields, 1nat,
{
    Seq::new(
        fields.len(),
        |i: int|
            if 0 <= i < fields.len() {
                (fields[i].0, fields[i].1.cleared())
            } else {
                (Seq::empty(), SchemaView::Bool(None))
            },
    )
}

/// Replacing one schema of an array replaces its view.
pub proof fn lemma_item_views_update<'a, 'k>(
    items: Seq<Schema<'a, 'k>>,
    i: int,
    item: Schema<'a, 'k>,
)
    requires
        0 <= i < items.len(),
    ensures
        item_views(items.update(i, item)) == item_views(items).update(i, item@),
{
    assert(item_views(items.update(i, item)) =~= item_views(items).update(i, item@));
}

/// Replacing the schema of one key of an object replaces its view.
pub proof fn lemma_field_views_update<'a, 'k>(
    fields: Seq<(&'k str, Schema<'a, 'k>)>,
    i: int,
    value: Schema<'a, 'k>,
)
    requires
        0 <= i < fields.len(),
    ensures
        field_views(fields.update(i, (fields[i].0, value))) == field_views(fields).update(
            i,
            (fields[i].0@, value@),
        ),
{
    assert(field_views(fields.update(i, (fields[i].0, value))) =~= field_views(fields).update(
        i,
        (fields[i].0@, value@),
    ));
}

/// Unsets every slot of these schemas.
pub fn clear_items<'a, 'k>(items: &mut Vec<Schema<'a, 'k>>)
    ensures
        item_views(final(items)@) == cleared_items(item_views(old(items)@)),
    decreases old(items)@, 1nat,
{
    let mut i: usize = 0;
    while i < items.len()
        invariant
            0 <= i <= items.len(),
            items.len() == old(items).len(),
            forall|j: int| 0 <= j < i ==> (#[trigger] items@[j])@ == old(items)@[j]@.cleared(),
            forall|j: int| i <= j < items.len() ==> #[trigger] items@[j] == old(items)@[j],
        decreases items.len() - i,
    {
        items[i].clear();
        i = i + 1;
    }
    assert(item_views(items@) =~= cleared_items(item_views(old(items)@)));
}

/// Unsets every slot of the schemas of these keys.
pub fn clear_fields<'a, 'k>(fields: &mut Fields<'a, 'k>)
    ensures
        field_views(final(fields)@) == cleared_fields(field_views(old(fields)@)),
    decreases old(fields)@, 1nat,
{
    let mut i: usize = 0;
    while i < fields.len()
        invariant
            0 <= i <= fields.len(),
            fields.len() == old(fields).len(),
            forall|j: int|
                0 <= j < i ==> (#[trigger] fields@[j]).1@ == old(fields)@[j].1@.cleared()
                    && fields@[j].0 == old(fields)@[j].0,
            forall|j: int| i <= j < fields.len() ==> #[trigger] fields@[j] == old(fields)@[j],
        decreases fields.len() - i,
    {
        fields[i].1.clear();
        i = i + 1;
    }
    assert(field_views(fields@) =~= cleared_fields(field_views(old(fields)@)));
}

impl<'a, 'k> Schema<'a, 'k> {
    /// Unsets every slot.
    pub fn clear(&mut self)
        ensures
            final(self)@ == old(self)@.cleared(),
        decreases *old(self), 0nat,
    {
        match self {
            Schema::Array(items) => {
                clear_items(items);
            },
            Schema::Bool(slot) => {
                *slot = None;
            },
            Schema::Float(slot) => {
                *slot = None;
            },
            Schema::Integer(slot) => {
                *slot = None;
            },
            Schema::Object(fields) => {
                clear_fields(fields);
            },
            Schema::Str(slot) => {
                *slot = None;
            },
        }
    }
}

} // verus!
