//! Descriptors: values that say what a resource is.
//!
//! A descriptor is a small tree of scalars, texts, sequences and named
//! values. Two descriptors name the same resource exactly when they are
//! equal as trees, whatever their place in memory and however they were
//! built.

use vstd::prelude::*;

verus! {

/// A value that names a resource by its content.
#[derive(Debug)]
pub enum Descriptor {
    Nil,
    Boolean(bool),
    Integer(i64),
    /// A real number, held by the bits of its encoding.
    Real(u64),
    Text(String),
    Sequence(Vec<Descriptor>),
    /// A value under a name: a field of an object, or a value of a named
    /// kind.
    Named { name: String, value: Box<Descriptor> },
}

/// The tree that a descriptor stands for.
pub enum DescriptorView {
    Nil,
    Boolean(bool),
    Integer(i64),
    Real(u64),
    Text(Seq<char>),
    Sequence(Seq<DescriptorView>),
    Named { name: Seq<char>, value: Box<DescriptorView> },
}

/// The trees that the descriptors `items` stand for, in that order.
pub open spec fn views_of(items: Seq<Descriptor>) -> Seq<DescriptorView> {
    Seq::new(items.len(), |i: int| items[i]@)
}

impl Descriptor {
    /// The tree that the descriptor stands for.
    pub open spec fn view(&self) -> DescriptorView
        decreases self,
    {
        match self {
            Descriptor::Nil => DescriptorView::Nil,
            Descriptor::Boolean(b) => DescriptorView::Boolean(*b),
            Descriptor::Integer(i) => DescriptorView::Integer(*i),
            Descriptor::Real(bits) => DescriptorView::Real(*bits),
            Descriptor::Text(text) => DescriptorView::Text(text@),
            Descriptor::Sequence(items) => DescriptorView::Sequence(
                Seq::new(
                    items@.len(),
                    |i: int|
                        if 0 <= i < items@.len() {
                            items@[i].view()
                        } else {
                            DescriptorView::Nil
                        },
                ),
            ),
            Descriptor::Named { name, value } => DescriptorView::Named {
                name: name@,
                value: Box::new(value.view()),
            },
        }
    }
}

impl Descriptor {
    /// The view of a sequence holds the views of its items.
    pub proof fn lemma_sequence_view(items: Vec<Descriptor>)
        ensures
            Descriptor::Sequence(items)@ == DescriptorView::Sequence(views_of(items@)),
    {
        assert(Descriptor::Sequence(items)@->Sequence_0 =~= views_of(items@));
    }

    /// The sequence of the given descriptors.
    pub fn sequence(items: Vec<Descriptor>) -> (made: Descriptor)
        ensures
            made@ == DescriptorView::Sequence(views_of(items@)),
    {
        proof {
            Descriptor::lemma_sequence_view(items);
        }
        Descriptor::Sequence(items)
    }

    /// The sequence of two descriptors.
    pub fn pair(first: Descriptor, second: Descriptor) -> (made: Descriptor)
        ensures
            made@ == DescriptorView::Sequence(seq![first@, second@]),
    {
        let mut items: Vec<Descriptor> = Vec::new();
        items.push(first);
        items.push(second);
        proof {
            assert(views_of(items@) =~= seq![first@, second@]);
        }
        Descriptor::sequence(items)
    }

    /// The sequence of three descriptors.
    pub fn triple(first: Descriptor, second: Descriptor, third: Descriptor) -> (made: Descriptor)
        ensures
            made@ == DescriptorView::Sequence(seq![first@, second@, third@]),
    {
        let mut items: Vec<Descriptor> = Vec::new();
        items.push(first);
        items.push(second);
        items.push(third);
        proof {
            assert(views_of(items@) =~= seq![first@, second@, third@]);
        }
        Descriptor::sequence(items)
    }

    /// The value under the name.
    pub fn named(name: String, value: Descriptor) -> (made: Descriptor)
        ensures
            made@ == (DescriptorView::Named { name: name@, value: Box::new(value@) }),
    {
        Descriptor::Named { name, value: Box::new(value) }
    }

    /// Whether the two descriptors are equal as trees.
    pub fn equals(&self, other: &Descriptor) -> (same: bool)
        ensures
            same == (self@ == other@),
        decreases self,
    {
        match (self, other) {
            (Descriptor::Nil, Descriptor::Nil) => true,
            (Descriptor::Boolean(a), Descriptor::Boolean(b)) => *a == *b,
            (Descriptor::Integer(a), Descriptor::Integer(b)) => *a == *b,
            (Descriptor::Real(a), Descriptor::Real(b)) => *a == *b,
            (Descriptor::Text(a), Descriptor::Text(b)) => *a == *b,
            (Descriptor::Sequence(a), Descriptor::Sequence(b)) => {
                proof {
                    Descriptor::lemma_sequence_view(*a);
                    Descriptor::lemma_sequence_view(*b);
                }
                if a.len() != b.len() {
                    proof {
                        assert(views_of(a@).len() != views_of(b@).len());
                    }
                    return false;
                }
                let mut i: usize = 0;
                while i < a.len()
                    invariant
                        i <= a@.len(),
                        a@.len() == b@.len(),
                        self is Sequence,
                        self->Sequence_0 == *a,
                        self@ == DescriptorView::Sequence(views_of(a@)),
                        other@ == DescriptorView::Sequence(views_of(b@)),
                        forall|j: int| 0 <= j < i ==> (#[trigger] a@[j])@ == b@[j]@,
                    decreases a@.len() - i,
                {
                    if !a[i].equals(&b[i]) {
                        proof {
                            assert(views_of(a@)[i as int] == a@[i as int]@);
                            assert(views_of(b@)[i as int] == b@[i as int]@);
                        }
                        return false;
                    }
                    i += 1;
                }
                proof {
                    assert(views_of(a@) =~= views_of(b@));
                }
                true
            },
            (
                Descriptor::Named { name: name_a, value: value_a },
                Descriptor::Named { name: name_b, value: value_b },
            ) => { *name_a == *name_b && value_a.equals(value_b) },
            _ => false,
        }
    }
}

/// The tree is an object: a sequence of named values.
pub open spec fn is_object(tree: DescriptorView) -> bool {
    tree is Sequence && forall|i: int|
        0 <= i < tree->Sequence_0.len() ==> (#[trigger] tree->Sequence_0[i]) is Named
}

/// The names of the fields of an object, in their order.
pub open spec fn field_names(tree: DescriptorView) -> Seq<Seq<char>> {
    Seq::new(tree->Sequence_0.len(), |i: int| tree->Sequence_0[i]->name)
}

/// The values of the fields of an object, in their order.
pub open spec fn field_values(tree: DescriptorView) -> Seq<DescriptorView> {
    Seq::new(tree->Sequence_0.len(), |i: int| *tree->Sequence_0[i]->value)
}

/// The views of the texts.
pub open spec fn texts_of(names: Seq<String>) -> Seq<Seq<char>> {
    Seq::new(names.len(), |i: int| names[i]@)
}

impl Descriptor {
    /// The object with one field.
    pub fn object_of(name: String, value: Descriptor) -> (made: Descriptor)
        ensures
            is_object(made@),
            field_names(made@) == seq![name@],
            field_values(made@) == seq![value@],
    {
        let mut fields: Vec<Descriptor> = Vec::new();
        fields.push(Descriptor::named(name, value));
        let made = Descriptor::sequence(fields);
        proof {
            assert(field_names(made@) =~= seq![name@]);
            assert(field_values(made@) =~= seq![value@]);
        }
        made
    }

    /// The names and the values of the fields, in their order, if the
    /// descriptor is an object.
    pub fn object_fields(&self) -> (fields: Option<(Vec<String>, Vec<Descriptor>)>)
        ensures
            fields.is_some() == is_object(self@),
            fields.is_some() ==> texts_of(fields.unwrap().0@) == field_names(self@) && views_of(
                fields.unwrap().1@,
            ) == field_values(self@),
    {
        match self {
            Descriptor::Sequence(items) => {
                proof {
                    Descriptor::lemma_sequence_view(*items);
                }
                let mut names: Vec<String> = Vec::new();
                let mut values: Vec<Descriptor> = Vec::new();
                let mut i: usize = 0;
                while i < items.len()
                    invariant
                        i <= items@.len(),
                        self@ == DescriptorView::Sequence(views_of(items@)),
                        names@.len() == i,
                        values@.len() == i,
                        forall|j: int| 0 <= j < i ==> (#[trigger] views_of(items@)[j]) is Named,
                        forall|j: int|
                            0 <= j < i ==> (#[trigger] names@[j])@ == views_of(items@)[j]->name,
                        forall|j: int|
                            0 <= j < i ==> (#[trigger] values@[j])@ == *views_of(items@)[j]->value,
                    decreases items@.len() - i,
                {
                    match &items[i] {
                        Descriptor::Named { name, value } => {
                            names.push(name.clone());
                            values.push((**value).clone());
                        },
                        _ => {
                            proof {
                                assert(!(views_of(items@)[i as int] is Named));
                            }
                            return None;
                        },
                    }
                    i += 1;
                }
                proof {
                    assert(texts_of(names@) =~= field_names(self@));
                    assert(views_of(values@) =~= field_values(self@));
                }
                Some((names, values))
            },
            _ => None,
        }
    }
}

/// The value of the first of the items that has the name `name`.
pub open spec fn lookup_in(items: Seq<DescriptorView>, name: Seq<char>) -> Option<DescriptorView>
    decreases items.len(),
{
    if items.len() == 0 {
        None
    } else if items[0] is Named && items[0]->name == name {
        Some(*items[0]->value)
    } else {
        lookup_in(items.skip(1), name)
    }
}

/// The value of the first field of the tree that has the name `name`.
pub open spec fn lookup(tree: DescriptorView, name: Seq<char>) -> Option<DescriptorView> {
    if tree is Sequence {
        lookup_in(tree->Sequence_0, name)
    } else {
        None
    }
}

/// The tree is a sequence of integers.
pub open spec fn is_integers(tree: DescriptorView) -> bool {
    tree is Sequence && forall|i: int|
        0 <= i < tree->Sequence_0.len() ==> (#[trigger] tree->Sequence_0[i]) is Integer
}

/// The integers of a sequence of integers, in their order.
pub open spec fn integers_of(tree: DescriptorView) -> Seq<i64> {
    Seq::new(tree->Sequence_0.len(), |i: int| tree->Sequence_0[i]->Integer_0)
}

/// The tree is a sequence of real numbers.
pub open spec fn is_reals(tree: DescriptorView) -> bool {
    tree is Sequence && forall|i: int|
        0 <= i < tree->Sequence_0.len() ==> (#[trigger] tree->Sequence_0[i]) is Real
}

/// The bits of the real numbers of a sequence, in their order.
pub open spec fn reals_of(tree: DescriptorView) -> Seq<u64> {
    Seq::new(tree->Sequence_0.len(), |i: int| tree->Sequence_0[i]->Real_0)
}

impl Descriptor {
    /// The value of the first field that has the name `name`.
    pub fn field(&self, name: &String) -> (found: Option<&Descriptor>)
        ensures
            found.is_some() == lookup(self@, name@).is_some(),
            found.is_some() ==> found.unwrap()@ == lookup(self@, name@).unwrap(),
    {
        match self {
            Descriptor::Sequence(items) => {
                proof {
                    Descriptor::lemma_sequence_view(*items);
                }
                let ghost views = views_of(items@);
                proof {
                    assert(views.skip(0) =~= views);
                }
                let mut i: usize = 0;
                while i < items.len()
                    invariant
                        i <= items@.len(),
                        views == views_of(items@),
                        self@ == DescriptorView::Sequence(views),
                        lookup_in(views, name@) == lookup_in(views.skip(i as int), name@),
                    decreases items@.len() - i,
                {
                    proof {
                        assert(views.skip(i as int)[0] == items@[i as int]@);
                        assert(views.skip(i as int).skip(1) =~= views.skip(i + 1));
                    }
                    match &items[i] {
                        Descriptor::Named { name: field_name, value } => {
                            if *field_name == *name {
                                return Some(&**value);
                            }
                        },
                        _ => {},
                    }
                    i += 1;
                }
                proof {
                    assert(views.skip(i as int).len() == 0);
                }
                None
            },
            _ => None,
        }
    }

    /// The integers of a sequence of integers, in their order.
    pub fn integers(&self) -> (found: Option<Vec<i64>>)
        ensures
            found.is_some() == is_integers(self@),
            found.is_some() ==> found.unwrap()@ == integers_of(self@),
    {
        match self {
            Descriptor::Sequence(items) => {
                proof {
                    Descriptor::lemma_sequence_view(*items);
                }
                let mut found: Vec<i64> = Vec::new();
                let mut i: usize = 0;
                while i < items.len()
                    invariant
                        i <= items@.len(),
                        self@ == DescriptorView::Sequence(views_of(items@)),
                        found@.len() == i,
                        forall|j: int| 0 <= j < i ==> (#[trigger] views_of(items@)[j]) is Integer,
                        forall|j: int|
                            0 <= j < i ==> #[trigger] found@[j] == views_of(items@)[j]->Integer_0,
                    decreases items@.len() - i,
                {
                    match &items[i] {
                        Descriptor::Integer(value) => {
                            found.push(*value);
                        },
                        _ => {
                            proof {
                                assert(!(views_of(items@)[i as int] is Integer));
                            }
                            return None;
                        },
                    }
                    i += 1;
                }
                proof {
                    assert(found@ =~= integers_of(self@));
                }
                Some(found)
            },
            _ => None,
        }
    }

    /// The bits of the real numbers of a sequence, in their order.
    pub fn reals(&self) -> (found: Option<Vec<u64>>)
        ensures
            found.is_some() == is_reals(self@),
            found.is_some() ==> found.unwrap()@ == reals_of(self@),
    {
        match self {
            Descriptor::Sequence(items) => {
                proof {
                    Descriptor::lemma_sequence_view(*items);
                }
                let mut found: Vec<u64> = Vec::new();
                let mut i: usize = 0;
                while i < items.len()
                    invariant
                        i <= items@.len(),
                        self@ == DescriptorView::Sequence(views_of(items@)),
                        found@.len() == i,
                        forall|j: int| 0 <= j < i ==> (#[trigger] views_of(items@)[j]) is Real,
                        forall|j: int|
                            0 <= j < i ==> #[trigger] found@[j] == views_of(items@)[j]->Real_0,
                    decreases items@.len() - i,
                {
                    match &items[i] {
                        Descriptor::Real(bits) => {
                            found.push(*bits);
                        },
                        _ => {
                            proof {
                                assert(!(views_of(items@)[i as int] is Real));
                            }
                            return None;
                        },
                    }
                    i += 1;
                }
                proof {
                    assert(found@ =~= reals_of(self@));
                }
                Some(found)
            },
            _ => None,
        }
    }
}

impl Clone for Descriptor {
    /// A descriptor that stands for the same tree.
    fn clone(&self) -> (copy: Descriptor)
        ensures
            copy@ == self@,
        decreases self,
    {
        match self {
            Descriptor::Nil => Descriptor::Nil,
            Descriptor::Boolean(b) => Descriptor::Boolean(*b),
            Descriptor::Integer(i) => Descriptor::Integer(*i),
            Descriptor::Real(bits) => Descriptor::Real(*bits),
            Descriptor::Text(text) => Descriptor::Text(text.clone()),
            Descriptor::Sequence(items) => {
                let mut copies: Vec<Descriptor> = Vec::new();
                let mut i: usize = 0;
                while i < items.len()
                    invariant
                        i <= items@.len(),
                        copies@.len() == i,
                        self is Sequence,
                        self->Sequence_0 == *items,
                        forall|j: int| 0 <= j < i ==> (#[trigger] copies@[j])@ == items@[j]@,
                    decreases items@.len() - i,
                {
                    copies.push(items[i].clone());
                    i += 1;
                }
                proof {
                    Descriptor::lemma_sequence_view(*items);
                    Descriptor::lemma_sequence_view(copies);
                    assert(views_of(copies@) =~= views_of(items@));
                }
                Descriptor::Sequence(copies)
            },
            Descriptor::Named { name, value } => Descriptor::Named {
                name: name.clone(),
                value: Box::new((**value).clone()),
            },
        }
    }
}

} // verus!
