//! Values: what a variable holds and what a literal stands for.
use crate::text::{
    chars_of, has_char, int_text, parse_i32, parse_integer, pieces, push_int, reads,
    remove_brackets, single_quote, split, split_on, string_of, strip, strip_quotes, trim,
    whitespace, without_brackets,
};
use vstd::prelude::*;

verus! {

/// A value. A list may hold values of different kinds. A struct value is
/// reserved: nothing in the language makes one, and it has no text.
#[derive(Debug, PartialEq)]
pub enum Symbol {
    String(String),
    Integer(i32),
    Boolean(bool),
    Struct(Vec<(String, Symbol)>),
    List(Vec<Symbol>),
}

/// `Symbol` as a mathematical value.
pub enum SymbolView {
    String(Seq<char>),
    Integer(i32),
    Boolean(bool),
    Struct(Seq<(Seq<char>, SymbolView)>),
    List(Seq<SymbolView>),
}

/// The kind of a value.
#[derive(Debug, Clone, Copy, PartialEq, Eq, Structural)]
pub enum SymbolKind {
    String,
    Integer,
    Boolean,
    Struct,
    List,
}

/// `s` as a mathematical value.
pub open spec fn symbol_view(s: Symbol) -> SymbolView
    decreases s,
{
    match s {
        Symbol::String(text) => SymbolView::String(text@),
        Symbol::Integer(i) => SymbolView::Integer(i),
        Symbol::Boolean(b) => SymbolView::Boolean(b),
        Symbol::Struct(fields) => SymbolView::Struct(field_views(fields@)),
        Symbol::List(items) => SymbolView::List(symbol_views(items@)),
    }
}

/// The values of `items` as mathematical values.
pub open spec fn symbol_views(items: Seq<Symbol>) -> Seq<SymbolView>
    decreases items,
{
    if items.len() == 0 {
        Seq::empty()
    } else {
        symbol_views(items.drop_last()).push(symbol_view(items.last()))
    }
}

/// The fields of `fields` as mathematical values.
pub open spec fn field_views(fields: Seq<(String, Symbol)>) -> Seq<(Seq<char>, SymbolView)>
    decreases fields,
{
    if fields.len() == 0 {
        Seq::empty()
    } else {
        field_views(fields.drop_last()).push((fields.last().0@, symbol_view(fields.last().1)))
    }
}

impl View for Symbol {
    type V = SymbolView;

    open spec fn view(&self) -> SymbolView {
        symbol_view(*self)
    }
}

/// `symbol_views` keeps the length and views item by item.
pub proof fn lemma_symbol_views(items: Seq<Symbol>)
    ensures
        symbol_views(items).len() == items.len(),
        forall|i: int| 0 <= i < items.len() ==> (#[trigger] symbol_views(items)[i]) == items[i]@,
    decreases items.len(),
{
    if items.len() > 0 {
        lemma_symbol_views(items.drop_last());
    }
}

/// Appending a value appends its view.
pub proof fn lemma_symbol_views_push(items: Seq<Symbol>, last: Symbol)
    ensures
        symbol_views(items.push(last)) == symbol_views(items).push(last@),
{
    assert(items.push(last).drop_last() =~= items);
}

/// `field_views` keeps the length and views field by field.
pub proof fn lemma_field_views(fields: Seq<(String, Symbol)>)
    ensures
        field_views(fields).len() == fields.len(),
        forall|i: int|
            0 <= i < fields.len() ==> (#[trigger] field_views(fields)[i]) == (
                fields[i].0@,
                fields[i].1@,
            ),
    decreases fields.len(),
{
    if fields.len() > 0 {
        lemma_field_views(fields.drop_last());
    }
}

/// The kind of `v`.
pub open spec fn kind_of(v: SymbolView) -> SymbolKind {
    match v {
        SymbolView::String(_) => SymbolKind::String,
        SymbolView::Integer(_) => SymbolKind::Integer,
        SymbolView::Boolean(_) => SymbolKind::Boolean,
        SymbolView::Struct(_) => SymbolKind::Struct,
        SymbolView::List(_) => SymbolKind::List,
    }
}

/// The name of the kind `k`.
pub open spec fn kind_name(k: SymbolKind) -> Seq<char> {
    match k {
        SymbolKind::String => "String"@,
        SymbolKind::Integer => "Integer"@,
        SymbolKind::Boolean => "Boolean"@,
        SymbolKind::Struct => "Struct"@,
        SymbolKind::List => "List"@,
    }
}

/// The text of `v`: a string is its own text, a number its decimal text, a
/// boolean `true` or `false`, a list the texts of its items with a comma and
/// a space between them. A struct has none, nor has a list that holds one.
pub open spec fn display(v: SymbolView) -> Option<Seq<char>>
    decreases v,
{
    match v {
        SymbolView::String(s) => Some(s),
        SymbolView::Integer(i) => Some(int_text(i as int)),
        SymbolView::Boolean(b) => Some(
            if b {
                "true"@
            } else {
                "false"@
            },
        ),
        SymbolView::Struct(_) => None,
        SymbolView::List(items) => display_joined(items),
    }
}

/// The texts of `items` with a comma and a space between them.
pub open spec fn display_joined(items: Seq<SymbolView>) -> Option<Seq<char>>
    decreases items,
{
    if items.len() == 0 {
        Some(Seq::empty())
    } else {
        match (display_joined(items.drop_last()), display(items.last())) {
            (Some(init), Some(last)) => Some(
                if items.len() == 1 {
                    last
                } else {
                    init + ", "@ + last
                },
            ),
            _ => None,
        }
    }
}

impl SymbolKind {
    /// The name of the kind.
    pub fn name(&self) -> (r: String)
        ensures
            r@ == kind_name(*self),
    {
        match self {
            SymbolKind::String => String::from_str("String"),
            SymbolKind::Integer => String::from_str("Integer"),
            SymbolKind::Boolean => String::from_str("Boolean"),
            SymbolKind::Struct => String::from_str("Struct"),
            SymbolKind::List => String::from_str("List"),
        }
    }
}

impl Symbol {
    /// The string value that holds `litteral`.
    pub fn from(litteral: String) -> (r: Self)
        ensures
            r@ == SymbolView::String(litteral@),
    {
        Symbol::String(litteral)
    }

    /// The kind of the value.
    pub fn kind(&self) -> (r: SymbolKind)
        ensures
            r == kind_of(self@),
    {
        match self {
            Symbol::String(_) => SymbolKind::String,
            Symbol::Integer(_) => SymbolKind::Integer,
            Symbol::Boolean(_) => SymbolKind::Boolean,
            Symbol::Struct(_) => SymbolKind::Struct,
            Symbol::List(_) => SymbolKind::List,
        }
    }

    /// The text of the value, where it has one.
    pub fn to_string(&self) -> (r: Option<String>)
        ensures
            match display(self@) {
                Some(text) => r matches Some(s) && s@ == text,
                None => r is None,
            },
        decreases self,
    {
        match self {
            Symbol::String(value) => Some(value.clone()),
            Symbol::Integer(value) => {
                let mut out = String::new();
                push_int(&mut out, *value);
                assert(out@ =~= int_text(*value as int));
                Some(out)
            },
            Symbol::Boolean(value) => Some(
                if *value {
                    String::from_str("true")
                } else {
                    String::from_str("false")
                },
            ),
            Symbol::Struct(_) => None,
            Symbol::List(items) => {
                let ghost views = symbol_views(items@);
                let mut out: Option<String> = Some(String::new());
                let mut i: usize = 0;
                proof {
                    lemma_symbol_views(items@);
                    assert(views.take(0) =~= Seq::<SymbolView>::empty());
                }
                while i < items.len()
                    invariant
                        i <= items@.len(),
                        *self == Symbol::List(*items),
                        views == symbol_views(items@),
                        match display_joined(views.take(i as int)) {
                            Some(text) => out matches Some(s) && s@ == text,
                            None => out is None,
                        },
                    decreases items@.len() - i,
                {
                    proof {
                        assert(decreases_to!(self => self->List_0));
                        assert(decreases_to!(items => items@));
                        assert(decreases_to!(items@ => items@[i as int]));
                        lemma_symbol_views(items@);
                        assert(views.take(i + 1).drop_last() =~= views.take(i as int));
                        assert(views.take(i + 1).last() == items@[i as int]@);
                    }
                    let item = items[i].to_string();
                    out = match (out, item) {
                        (Some(mut init), Some(last)) => {
                            if i > 0 {
                                init.append(", ");
                            }
                            init.append(last.as_str());
                            assert(i == 0 ==> init@ =~= last@);
                            Some(init)
                        },
                        _ => None,
                    };
                    i += 1;
                }
                proof {
                    lemma_symbol_views(items@);
                    assert(views.take(items@.len() as int) =~= views);
                }
                out
            },
        }
    }
}

impl Clone for Symbol {
    /// A copy of the value that shares nothing with it.
    fn clone(&self) -> (r: Self)
        ensures
            r@ == self@,
        decreases self,
    {
        match self {
            Symbol::String(value) => Symbol::String(value.clone()),
            Symbol::Integer(value) => Symbol::Integer(*value),
            Symbol::Boolean(value) => Symbol::Boolean(*value),
            Symbol::Struct(fields) => {
                let mut copy: Vec<(String, Symbol)> = Vec::new();
                let mut i: usize = 0;
                while i < fields.len()
                    invariant
                        i <= fields@.len(),
                        *self == Symbol::Struct(*fields),
                        copy@.len() == i,
                        forall|j: int|
                            0 <= j < i ==> (#[trigger] copy@[j]).0@ == fields@[j].0@ && copy@[j].1@
                                == fields@[j].1@,
                    decreases fields@.len() - i,
                {
                    proof {
                        assert(decreases_to!(self => self->Struct_0));
                        assert(decreases_to!(fields => fields@));
                        assert(decreases_to!(fields@ => fields@[i as int]));
                        assert(decreases_to!(fields@[i as int] => fields@[i as int].1));
                    }
                    let name = fields[i].0.clone();
                    let value = fields[i].1.clone();
                    copy.push((name, value));
                    i += 1;
                }
                proof {
                    lemma_field_views(fields@);
                    lemma_field_views(copy@);
                    assert(field_views(copy@) =~= field_views(fields@));
                }
                Symbol::Struct(copy)
            },
            Symbol::List(items) => {
                let mut copy: Vec<Symbol> = Vec::new();
                let mut i: usize = 0;
                while i < items.len()
                    invariant
                        i <= items@.len(),
                        *self == Symbol::List(*items),
                        copy@.len() == i,
                        forall|j: int| 0 <= j < i ==> (#[trigger] copy@[j])@ == items@[j]@,
                    decreases items@.len() - i,
                {
                    proof {
                        assert(decreases_to!(self => self->List_0));
                        assert(decreases_to!(items => items@));
                        assert(decreases_to!(items@ => items@[i as int]));
                    }
                    let item = items[i].clone();
                    copy.push(item);
                    i += 1;
                }
                proof {
                    lemma_symbol_views(items@);
                    lemma_symbol_views(copy@);
                    assert(symbol_views(copy@) =~= symbol_views(items@));
                }
                Symbol::List(copy)
            },
        }
    }
}


/// The value that the text `text` of a single value stands for: a string
/// where it starts with a single quote, the quotes at both ends taken off;
/// a boolean where it reads `True` or `False`; else a decimal number of 32
/// bits. Other text stands for nothing.
pub open spec fn scalar_of(text: Seq<char>) -> Option<SymbolView> {
    if text.len() > 0 && text[0] == '\'' {
        Some(SymbolView::String(strip(text, single_quote())))
    } else if text == "True"@ {
        Some(SymbolView::Boolean(true))
    } else if text == "False"@ {
        Some(SymbolView::Boolean(false))
    } else {
        match parse_i32(text) {
            Some(n) => Some(SymbolView::Integer(n)),
            None => None,
        }
    }
}

/// The text of the list item written in `part`, one of the pieces between
/// the commas of a list: the piece without brackets and surrounding
/// whitespace.
pub open spec fn item_text(part: Seq<char>) -> Seq<char> {
    strip(without_brackets(part), whitespace())
}

/// The values of the items written in `parts`, in order. A piece that holds
/// no text yields no item. One item that stands for nothing spoils the list.
pub open spec fn items_of(parts: Seq<Seq<char>>) -> Option<Seq<SymbolView>>
    decreases parts.len(),
{
    if parts.len() == 0 {
        Some(Seq::empty())
    } else {
        let text = item_text(parts.last());
        match items_of(parts.drop_last()) {
            None => None,
            Some(init) => if text.len() == 0 {
                Some(init)
            } else {
                match scalar_of(text) {
                    Some(v) => Some(init.push(v)),
                    None => None,
                }
            },
        }
    }
}

/// The value that the text `text` stands for. Text that does not start with a
/// single quote and holds an opening bracket is a list: its items stand
/// between commas, each a single value. Other text is a single value.
pub open spec fn value_of(text: Seq<char>) -> Option<SymbolView> {
    if !(text.len() > 0 && text[0] == '\'') && text.contains('[') {
        match items_of(split(text, ',')) {
            Some(items) => Some(SymbolView::List(items)),
            None => None,
        }
    } else {
        scalar_of(text)
    }
}

/// Whether `r` is the value `v`, or absent where there is none.
pub open spec fn is_value(r: Option<Symbol>, v: Option<SymbolView>) -> bool {
    match v {
        Some(x) => r matches Some(s) && s@ == x,
        None => r is None,
    }
}

fn scalar(text: &Vec<char>) -> (r: Option<Symbol>)
    ensures
        is_value(r, scalar_of(text@)),
{
    if text.len() > 0 && text[0] == '\'' {
        let inner = strip_quotes(text);
        let s = string_of(&inner, 0, inner.len());
        assert(inner@.subrange(0, inner@.len() as int) =~= inner@);
        Some(Symbol::String(s))
    } else if reads(text, "True") {
        Some(Symbol::Boolean(true))
    } else if reads(text, "False") {
        Some(Symbol::Boolean(false))
    } else {
        match parse_integer(text) {
            Some(n) => Some(Symbol::Integer(n)),
            None => None,
        }
    }
}

/// Reads the text of a value.
pub fn get_symbol_from_variable_value(var_value: String) -> (r: Option<Symbol>)
    ensures
        is_value(r, value_of(var_value@)),
{
    let text = chars_of(var_value.as_str());
    if !(text.len() > 0 && text[0] == '\'') && has_char(&text, '[') {
        let parts = split_on(&text, ',');
        let mut list: Vec<Symbol> = Vec::new();
        let mut ok = true;
        let mut i: usize = 0;
        assert(pieces(parts@).take(0) =~= Seq::<Seq<char>>::empty());
        while i < parts.len()
            invariant
                i <= parts@.len(),
                match items_of(pieces(parts@).take(i as int)) {
                    Some(items) => ok && symbol_views(list@) == items,
                    None => !ok,
                },
            decreases parts@.len() - i,
        {
            proof {
                assert(pieces(parts@).take(i + 1).drop_last() =~= pieces(parts@).take(i as int));
                assert(pieces(parts@).take(i + 1).last() == parts@[i as int]@);
            }
            let v = trim(&remove_brackets(&parts[i]));
            if v.len() > 0 {
                match scalar(&v) {
                    Some(s) => {
                        if ok {
                            proof {
                                lemma_symbol_views_push(list@, s);
                            }
                            list.push(s);
                        }
                    },
                    None => {
                        ok = false;
                    },
                }
            }
            i += 1;
        }
        assert(pieces(parts@).take(parts@.len() as int) =~= pieces(parts@));
        if ok {
            Some(Symbol::List(list))
        } else {
            None
        }
    } else {
        scalar(&text)
    }
}

} // verus!
